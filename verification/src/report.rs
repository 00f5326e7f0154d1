use vstd::prelude::*;
use vstd::string::StringSliceAdditionalSpecFns;

verus! {

/// The scale at which a line count is shown.
#[derive(Debug, PartialEq, Eq, Structural, Clone, Copy)]
pub enum SizeUnit {
    /// Below a thousand: the number itself.
    Units,
    /// Below a million: thousands, suffix `K`.
    Thousands,
    /// Below a billion: millions, suffix `M`.
    Millions,
    /// Billions, suffix `B`.
    Billions,
}

/// The scale at which `n` lines are shown.
pub fn size_unit(n: usize) -> (u: SizeUnit)
    ensures
        n < 1_000 ==> u == SizeUnit::Units,
        1_000 <= n < 1_000_000 ==> u == SizeUnit::Thousands,
        1_000_000 <= n < 1_000_000_000 ==> u == SizeUnit::Millions,
        1_000_000_000 <= n ==> u == SizeUnit::Billions,
{
    if n < 1_000 {
        SizeUnit::Units
    } else if n < 1_000_000 {
        SizeUnit::Thousands
    } else if n < 1_000_000_000 {
        SizeUnit::Millions
    } else {
        SizeUnit::Billions
    }
}

/// The byte length of the longest name among `rows`, 0 when there is none.
pub open spec fn longest_name(rows: Seq<(&'static str, usize)>) -> nat
    decreases rows.len(),
{
    if rows.len() == 0 {
        0
    } else {
        let rest = longest_name(rows.drop_last());
        let here = rows.last().0.spec_bytes().len();
        if here > rest { here } else { rest }
    }
}

/// The longest name is at least as long as every name, and is the length of one of them.
pub proof fn lemma_longest_name(rows: Seq<(&'static str, usize)>)
    ensures
        forall|k: int| 0 <= k < rows.len() ==> (#[trigger] rows[k]).0.spec_bytes().len() <= longest_name(rows),
        rows.len() > 0 ==> exists|k: int| 0 <= k < rows.len() && (#[trigger] rows[k]).0.spec_bytes().len() == longest_name(rows),
        rows.len() == 0 ==> longest_name(rows) == 0,
    decreases rows.len(),
{
    if rows.len() > 0 {
        let p = rows.drop_last();
        lemma_longest_name(p);
        assert forall|k: int| 0 <= k < rows.len() implies (#[trigger] rows[k]).0.spec_bytes().len() <= longest_name(rows) by {
            if k < rows.len() - 1 {
                assert(p[k] == rows[k]);
            }
        }
        let here = rows.last().0.spec_bytes().len();
        if here >= longest_name(p) {
            assert(rows[rows.len() - 1].0.spec_bytes().len() == longest_name(rows));
        } else {
            let k = choose|k: int| 0 <= k < p.len() && (#[trigger] p[k]).0.spec_bytes().len() == longest_name(p);
            assert(rows[k] == p[k]);
        }
    }
}

/// The width of the name column of the report: the byte length of the longest name.
pub fn name_width(rows: &Vec<(&'static str, usize)>) -> (w: usize)
    ensures
        w == longest_name(rows@),
        forall|k: int| 0 <= k < rows@.len() ==> (#[trigger] rows@[k]).0.spec_bytes().len() <= w,
        rows@.len() > 0 ==> exists|k: int| 0 <= k < rows@.len() && (#[trigger] rows@[k]).0.spec_bytes().len() == w,
        rows@.len() == 0 ==> w == 0,
{
    proof {
        lemma_longest_name(rows@);
    }
    let mut w: usize = 0;
    let mut k: usize = 0;
    while k < rows.len()
        invariant
            k <= rows@.len(),
            w == longest_name(rows@.take(k as int)),
        decreases rows@.len() - k,
    {
        assert(rows@.take(k + 1).drop_last() =~= rows@.take(k as int));
        assert(rows@.take(k + 1).last() == rows@[k as int]);
        let n = rows[k].0.as_bytes().len();
        if n > w {
            w = n;
        }
        k = k + 1;
    }
    assert(rows@.take(rows@.len() as int) =~= rows@);
    w
}

} // verus!
