use vstd::prelude::*;

verus! {

/// The kind of a component of a path.
#[derive(Debug, PartialEq, Eq, Structural, Clone, Copy)]
pub enum PartKind {
    /// A drive or share prefix.
    Prefix,
    /// The root directory.
    Root,
    /// `.`
    Cur,
    /// `..`
    Parent,
    /// A name.
    Normal,
}

/// The components that normalizing keeps, by index: `.` is dropped, `..` removes the
/// name kept just before it (and nothing when what was kept last is no name, such as
/// the root), and everything else is kept.
pub open spec fn kept_parts(parts: Seq<PartKind>) -> Seq<int>
    decreases parts.len(),
{
    if parts.len() == 0 {
        Seq::empty()
    } else {
        let r = kept_parts(parts.drop_last());
        match parts.last() {
            PartKind::Cur => r,
            PartKind::Parent => if r.len() > 0 && parts[r.last()] == PartKind::Normal {
                r.drop_last()
            } else {
                r
            },
            _ => r.push(parts.len() - 1),
        }
    }
}

/// Kept indices are ascending positions of components that are neither `.` nor `..`.
pub open spec fn kept_wf(parts: Seq<PartKind>, r: Seq<int>) -> bool {
    &&& forall|t: int| 0 <= t < r.len() ==> 0 <= #[trigger] r[t] < parts.len()
    &&& forall|t: int| 0 <= t < r.len() ==> parts[#[trigger] r[t]] != PartKind::Cur && parts[r[t]] != PartKind::Parent
    &&& forall|s: int, t: int| 0 <= s < t < r.len() ==> #[trigger] r[s] < #[trigger] r[t]
}

pub proof fn lemma_kept_parts_wf(parts: Seq<PartKind>)
    ensures
        kept_wf(parts, kept_parts(parts)),
    decreases parts.len(),
{
    if parts.len() > 0 {
        let p = parts.drop_last();
        lemma_kept_parts_wf(p);
        let r = kept_parts(p);
        assert forall|t: int| 0 <= t < r.len() implies parts[#[trigger] r[t]] == p[r[t]] by {}
    }
}

/// A drive prefix or the root: a component that `..` cannot remove.
pub open spec fn is_anchor(k: PartKind) -> bool {
    k == PartKind::Prefix || k == PartKind::Root
}

/// How many anchors the path has.
pub open spec fn anchors(parts: Seq<PartKind>) -> nat
    decreases parts.len(),
{
    if parts.len() == 0 {
        0
    } else {
        anchors(parts.drop_last()) + if is_anchor(parts.last()) { 1nat } else { 0nat }
    }
}

/// How deep below its anchors a path leads: a name goes one level down, `..` one level
/// up but never above the anchors, `.` stays.
pub open spec fn depth(parts: Seq<PartKind>) -> nat
    decreases parts.len(),
{
    if parts.len() == 0 {
        0
    } else {
        let d = depth(parts.drop_last());
        match parts.last() {
            PartKind::Normal => d + 1,
            PartKind::Parent => if d > 0 { (d - 1) as nat } else { 0 },
            _ => d,
        }
    }
}

/// The anchors come before every other component, as in any path.
pub open spec fn anchors_first(parts: Seq<PartKind>) -> bool {
    forall|i: int, j: int| 0 <= i < j < parts.len() && is_anchor(#[trigger] parts[j]) ==> is_anchor(#[trigger] parts[i])
}

/// Normalizing keeps the anchors, then exactly as many names as the path's depth:
/// every `..` removes the last name still kept, however far back it lies.
pub proof fn lemma_kept_anchors_then_depth(parts: Seq<PartKind>)
    requires
        anchors_first(parts),
    ensures
        kept_parts(parts).len() == anchors(parts) + depth(parts),
        forall|t: int| 0 <= t < kept_parts(parts).len() ==>
            (t < anchors(parts) <==> is_anchor(parts[#[trigger] kept_parts(parts)[t]])),
        forall|t: int| 0 <= t < kept_parts(parts).len() && t >= anchors(parts) ==>
            parts[#[trigger] kept_parts(parts)[t]] == PartKind::Normal,
    decreases parts.len(),
{
    lemma_kept_parts_wf(parts);
    if parts.len() > 0 {
        let p = parts.drop_last();
        assert(anchors_first(p)) by {
            assert forall|i: int, j: int| 0 <= i < j < p.len() && is_anchor(#[trigger] p[j]) implies is_anchor(#[trigger] p[i]) by {
                assert(p[j] == parts[j] && p[i] == parts[i]);
            }
        }
        lemma_kept_anchors_then_depth(p);
        lemma_kept_parts_wf(p);
        let r = kept_parts(p);
        assert forall|t: int| 0 <= t < r.len() implies parts[#[trigger] r[t]] == p[r[t]] by {}
        if is_anchor(parts.last()) {
            // Every earlier component is an anchor too, so nothing but anchors is kept.
            assert forall|t: int| 0 <= t < r.len() implies is_anchor(parts[#[trigger] r[t]]) by {
                assert(is_anchor(parts[r[t]]));
            }
            lemma_depth_anchors(p);
        }
    }
}

/// A path made only of anchors has depth 0.
pub proof fn lemma_depth_anchors(parts: Seq<PartKind>)
    requires
        forall|i: int| 0 <= i < parts.len() ==> is_anchor(#[trigger] parts[i]),
    ensures
        depth(parts) == 0,
    decreases parts.len(),
{
    if parts.len() > 0 {
        let p = parts.drop_last();
        assert forall|i: int| 0 <= i < p.len() implies is_anchor(#[trigger] p[i]) by {
            assert(p[i] == parts[i]);
        }
        lemma_depth_anchors(p);
    }
}

/// A `..` after a path whose kept components end in a name removes that name and
/// nothing else; after one whose kept components end in an anchor, or are empty, it
/// removes nothing.
pub proof fn lemma_parent_removes_last_name(parts: Seq<PartKind>)
    ensures
        kept_parts(parts).len() > 0 && parts[kept_parts(parts).last()] == PartKind::Normal
            ==> kept_parts(parts.push(PartKind::Parent)) == kept_parts(parts).drop_last(),
        !(kept_parts(parts).len() > 0 && parts[kept_parts(parts).last()] == PartKind::Normal)
            ==> kept_parts(parts.push(PartKind::Parent)) == kept_parts(parts),
{
    let q = parts.push(PartKind::Parent);
    assert(q.drop_last() =~= parts);
    lemma_kept_parts_wf(parts);
    if kept_parts(parts).len() > 0 {
        assert(q[kept_parts(parts).last()] == parts[kept_parts(parts).last()]);
    }
}

/// The components of a path with `.` and `..` resolved lexically, as the indices of
/// the components to keep, in order.
pub fn normalize(parts: &Vec<PartKind>) -> (r: Vec<usize>)
    ensures
        r@.map_values(|i: usize| i as int) == kept_parts(parts@),
        kept_wf(parts@, kept_parts(parts@)),
        anchors_first(parts@) ==> r@.len() == anchors(parts@) + depth(parts@),
{
    let mut r: Vec<usize> = Vec::new();
    let mut k: usize = 0;
    while k < parts.len()
        invariant
            k <= parts@.len(),
            r@.map_values(|i: usize| i as int) == kept_parts(parts@.take(k as int)),
            kept_wf(parts@.take(k as int), kept_parts(parts@.take(k as int))),
        decreases parts@.len() - k,
    {
        let ghost before = r@;
        proof {
            assert(parts@.take(k + 1).drop_last() =~= parts@.take(k as int));
            lemma_kept_parts_wf(parts@.take(k + 1));
        }
        match parts[k] {
            PartKind::Cur => {},
            PartKind::Parent => {
                if r.len() > 0 && parts[r[r.len() - 1]] == PartKind::Normal {
                    r.pop();
                    assert(r@.map_values(|i: usize| i as int) =~= before.map_values(|i: usize| i as int).drop_last());
                }
            },
            _ => {
                r.push(k);
                assert(r@.map_values(|i: usize| i as int) =~= before.map_values(|i: usize| i as int).push(k as int));
            },
        }
        k = k + 1;
    }
    assert(parts@.take(parts@.len() as int) =~= parts@);
    proof {
        lemma_kept_parts_wf(parts@);
        if anchors_first(parts@) {
            lemma_kept_anchors_then_depth(parts@);
        }
    }
    r
}

/// A trimmed line of an ignore file names a path: it is not empty and not a `#` comment.
pub fn is_ignore_pattern(trimmed: &str) -> (r: bool)
    ensures
        r == (trimmed@.len() > 0 && trimmed@[0] != '#'),
{
    if trimmed.is_empty() {
        return false;
    }
    proof {
        assert(trimmed@.len() > 0);
    }
    trimmed.get_char(0) != '#'
}

} // verus!
