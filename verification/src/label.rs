use vstd::prelude::*;

use crate::error::PlotError;

verus! {

/// The code that marks an observation as a target.
pub const TARGET: i32 = 1;

/// The code that marks an observation as a decoy.
pub const DECOY: i32 = -1;

/// The class of one observation.
#[derive(Clone, Copy, Debug, PartialEq, Eq, Structural)]
pub enum Label {
    Target,
    Decoy,
}

/// The code names one of the two classes.
pub open spec fn valid_code(code: i32) -> bool {
    code == TARGET || code == DECOY
}

/// Every code of the sequence names a class.
pub open spec fn all_valid(labels: Seq<i32>) -> bool {
    forall|i: int| 0 <= i < labels.len() ==> valid_code(#[trigger] labels[i])
}

/// How many entries of `labels` equal `code`.
pub open spec fn count_code(labels: Seq<i32>, code: i32) -> nat
    decreases labels.len(),
{
    if labels.len() == 0 {
        0
    } else {
        count_code(labels.drop_last(), code) + if labels.last() == code {
            1nat
        } else {
            0nat
        }
    }
}

/// The scores whose label equals `code`, in the order of the input.
///
/// The two sequences run in parallel; where their lengths differ nothing is
/// selected.
pub open spec fn select(scores: Seq<i64>, labels: Seq<i32>, code: i32) -> Seq<i64>
    decreases scores.len(),
{
    if scores.len() == 0 || labels.len() != scores.len() {
        Seq::<i64>::empty()
    } else if labels.last() == code {
        select(scores.drop_last(), labels.drop_last(), code).push(scores.last())
    } else {
        select(scores.drop_last(), labels.drop_last(), code)
    }
}

/// What `partition` returns: the error for mismatched lengths first, then
/// the error for a code outside the two classes, else the two classes.
pub open spec fn partition_model(scores: Seq<i64>, labels: Seq<i32>) -> Result<
    (Seq<i64>, Seq<i64>),
    PlotError,
> {
    if scores.len() != labels.len() {
        Err(PlotError::LengthMismatch)
    } else if !all_valid(labels) {
        Err(PlotError::InvalidLabel)
    } else {
        Ok((select(scores, labels, TARGET), select(scores, labels, DECOY)))
    }
}

impl Label {
    /// The class that a code names, if it names one.
    pub open spec fn of_code(code: i32) -> Option<Label> {
        if code == TARGET {
            Some(Label::Target)
        } else if code == DECOY {
            Some(Label::Decoy)
        } else {
            None
        }
    }

    /// The code of this class.
    pub open spec fn code_of(self) -> i32 {
        match self {
            Label::Target => TARGET,
            Label::Decoy => DECOY,
        }
    }

    /// Reads a class from its code; any other code is rejected.
    pub fn from_code(code: i32) -> (r: Result<Label, PlotError>)
        ensures
            match r {
                Ok(l) => Label::of_code(code) == Some(l),
                Err(e) => e == PlotError::InvalidLabel && !valid_code(code),
            },
    {
        if code == TARGET {
            Ok(Label::Target)
        } else if code == DECOY {
            Ok(Label::Decoy)
        } else {
            Err(PlotError::InvalidLabel)
        }
    }

    /// The code that stands for this class.
    pub fn code(&self) -> (c: i32)
        ensures
            c == self.code_of(),
            Label::of_code(c) == Some(*self),
    {
        match self {
            Label::Target => TARGET,
            Label::Decoy => DECOY,
        }
    }
}

/// The selection has as many elements as there are matching labels.
pub proof fn lemma_select_len(scores: Seq<i64>, labels: Seq<i32>, code: i32)
    requires
        scores.len() == labels.len(),
    ensures
        select(scores, labels, code).len() == count_code(labels, code),
    decreases scores.len(),
{
    if scores.len() != 0 {
        lemma_select_len(scores.drop_last(), labels.drop_last(), code);
    }
}

/// With valid labels every observation belongs to exactly one class.
pub proof fn lemma_counts_cover(labels: Seq<i32>)
    requires
        all_valid(labels),
    ensures
        count_code(labels, TARGET) + count_code(labels, DECOY) == labels.len(),
    decreases labels.len(),
{
    if labels.len() != 0 {
        let head = labels.drop_last();
        assert forall|i: int| 0 <= i < head.len() implies valid_code(#[trigger] head[i]) by {
            assert(head[i] == labels[i]);
        }
        lemma_counts_cover(head);
        assert(valid_code(labels[labels.len() - 1]));
    }
}

/// Some position carries the label `code` and the score `v`.
pub open spec fn has_member(scores: Seq<i64>, labels: Seq<i32>, code: i32, v: i64) -> bool {
    exists|i: int| 0 <= i < scores.len() && i < labels.len() && labels[i] == code && scores[i] == v
}

/// Every selected value is a score that carries the selecting label, and
/// every such score is selected.
pub proof fn lemma_select_members(scores: Seq<i64>, labels: Seq<i32>, code: i32)
    requires
        scores.len() == labels.len(),
    ensures
        forall|v: i64|
            select(scores, labels, code).contains(v) <==> #[trigger] has_member(
                scores,
                labels,
                code,
                v,
            ),
    decreases scores.len(),
{
    let sel = select(scores, labels, code);
    if scores.len() != 0 {
        let hs = scores.drop_last();
        let hl = labels.drop_last();
        let inner = select(hs, hl, code);
        lemma_select_members(hs, hl, code);
        let n = scores.len() - 1;
        assert forall|v: i64| sel.contains(v) <==> #[trigger] has_member(
            scores,
            labels,
            code,
            v,
        ) by {
            if sel.contains(v) {
                let k = choose|k: int| 0 <= k < sel.len() && sel[k] == v;
                if k < inner.len() {
                    assert(inner[k] == v);
                    assert(inner.contains(v));
                    assert(has_member(hs, hl, code, v));
                    let i = choose|i: int|
                        0 <= i < hs.len() && i < hl.len() && hl[i] == code && hs[i] == v;
                    assert(labels[i] == code && scores[i] == v);
                } else {
                    assert(labels[n] == code && scores[n] == v);
                }
            }
            if has_member(scores, labels, code, v) {
                let i = choose|i: int|
                    0 <= i < scores.len() && i < labels.len() && labels[i] == code && scores[i]
                        == v;
                if i < n {
                    assert(hl[i] == code && hs[i] == v);
                    assert(has_member(hs, hl, code, v));
                    assert(inner.contains(v));
                    let k = choose|k: int| 0 <= k < inner.len() && inner[k] == v;
                    assert(sel[k] == v);
                } else {
                    assert(sel[sel.len() - 1] == v);
                }
            }
        }
    } else {
        assert forall|v: i64| sel.contains(v) <==> #[trigger] has_member(
            scores,
            labels,
            code,
            v,
        ) by {}
    }
}

/// Splits a labelled sample into its target scores and its decoy scores,
/// each in the order of the input.
pub fn partition(scores: &Vec<i64>, labels: &Vec<i32>) -> (r: Result<
    (Vec<i64>, Vec<i64>),
    PlotError,
>)
    ensures
        match r {
            Ok((targets, decoys)) => partition_model(scores@, labels@) == Ok::<
                (Seq<i64>, Seq<i64>),
                PlotError,
            >((targets@, decoys@)),
            Err(e) => partition_model(scores@, labels@) == Err::<(Seq<i64>, Seq<i64>), PlotError>(
                e,
            ),
        },
{
    if scores.len() != labels.len() {
        return Err(PlotError::LengthMismatch);
    }
    let n: usize = scores.len();
    let mut targets: Vec<i64> = Vec::new();
    let mut decoys: Vec<i64> = Vec::new();
    let mut i: usize = 0;
    while i < n
        invariant
            n == scores.len(),
            n == labels.len(),
            i <= n,
            all_valid(labels@.take(i as int)),
            targets@ == select(scores@.take(i as int), labels@.take(i as int), TARGET),
            decoys@ == select(scores@.take(i as int), labels@.take(i as int), DECOY),
        decreases n - i,
    {
        let ghost next_scores = scores@.take(i + 1);
        let ghost next_labels = labels@.take(i + 1);
        proof {
            assert(next_scores.drop_last() =~= scores@.take(i as int));
            assert(next_labels.drop_last() =~= labels@.take(i as int));
        }
        match Label::from_code(labels[i]) {
            Ok(Label::Target) => {
                targets.push(scores[i]);
            },
            Ok(Label::Decoy) => {
                decoys.push(scores[i]);
            },
            Err(e) => {
                proof {
                    assert(!valid_code(labels@[i as int]));
                }
                return Err(e);
            },
        }
        proof {
            assert forall|k: int| 0 <= k < next_labels.len() implies valid_code(
                #[trigger] next_labels[k],
            ) by {
                if k < i {
                    assert(labels@.take(i as int)[k] == next_labels[k]);
                }
            }
        }
        i = i + 1;
    }
    proof {
        assert(scores@.take(n as int) =~= scores@);
        assert(labels@.take(n as int) =~= labels@);
    }
    Ok((targets, decoys))
}

} // verus!
