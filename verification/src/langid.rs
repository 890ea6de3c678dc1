//! The fields under which language-identification scores are reported.

use vstd::prelude::*;
use vstd::string::StringExecFns;

verus! {

/// The names of the three aggregate fields, in order.
pub open spec fn aggregate_fields() -> Seq<Seq<char>> {
    seq!["top_label"@, "top_score"@, "total_score"@]
}

/// The names of the reported fields: the aggregates first, if asked for,
/// then one field per label, if asked for.
pub open spec fn fasttext_fields(
    labels: Seq<Seq<char>>,
    output_aggregate: bool,
    output_scores: bool,
) -> Seq<Seq<char>> {
    (if output_aggregate {
        aggregate_fields()
    } else {
        Seq::empty()
    }) + (if output_scores {
        labels
    } else {
        Seq::empty()
    })
}

/// The texts of a list of strings.
pub open spec fn texts(names: Seq<String>) -> Seq<Seq<char>> {
    Seq::new(names.len(), |i: int| names[i]@)
}

/// Lists the names of the reported fields.
pub fn fasttext_output(labels: &Vec<String>, output_aggregate: bool, output_scores: bool) -> (names:
    Vec<String>)
    ensures
        texts(names@) == fasttext_fields(texts(labels@), output_aggregate, output_scores),
{
    let mut names: Vec<String> = Vec::new();
    if output_aggregate {
        names.push(String::from_str("top_label"));
        names.push(String::from_str("top_score"));
        names.push(String::from_str("total_score"));
    }
    let ghost head = texts(names@);
    assert(head =~= (if output_aggregate {
        aggregate_fields()
    } else {
        Seq::empty()
    }));
    if output_scores {
        let mut i: usize = 0;
        while i < labels.len()
            invariant
                i <= labels@.len(),
                texts(names@) == head + texts(labels@).take(i as int),
            decreases labels@.len() - i,
        {
            let label: String = labels[i].clone();
            let ghost before = names@;
            names.push(label);
            proof {
                let want = head + texts(labels@).take(i + 1);
                assert(texts(before).len() == head.len() + i);
                assert(texts(names@).len() == want.len());
                assert forall|t: int| 0 <= t < want.len() implies texts(names@)[t] == want[t] by {
                    if t < before.len() {
                        assert(texts(before)[t] == (head + texts(labels@).take(i as int))[t]);
                    } else {
                        assert(names@[t]@ == labels@[i as int]@);
                    }
                }
                assert(texts(names@) =~= want);
            }
            i = i + 1;
        }
        assert(texts(labels@).take(i as int) =~= texts(labels@));
    } else {
        assert(texts(names@) =~= head + Seq::<Seq<char>>::empty());
    }
    names
}

} // verus!
