//! Normalizing a path given as its parts, against a current directory.

use crate::index::copy_vec;
use vstd::prelude::*;

verus! {

/// One part of a path.
pub enum PathPart {
    /// A drive or share prefix, such as `C:`.
    Prefix(Vec<u8>),
    /// The root separator.
    Root,
    /// `.`
    Cur,
    /// `..`
    Parent,
    /// A name.
    Normal(Vec<u8>),
}

/// A path part with its bytes as a sequence.
pub enum PartView {
    Prefix(Seq<u8>),
    Root,
    Cur,
    Parent,
    Normal(Seq<u8>),
}

pub open spec fn view_part(p: PathPart) -> PartView {
    match p {
        PathPart::Prefix(b) => PartView::Prefix(b@),
        PathPart::Root => PartView::Root,
        PathPart::Cur => PartView::Cur,
        PathPart::Parent => PartView::Parent,
        PathPart::Normal(b) => PartView::Normal(b@),
    }
}

pub open spec fn view_parts(v: Seq<PathPart>) -> Seq<PartView> {
    v.map_values(|p: PathPart| view_part(p))
}

/// Going up one level: the last part goes, unless the path is empty or ends
/// at a prefix or a root.
pub open spec fn up(out: Seq<PartView>) -> Seq<PartView> {
    if out.len() > 0 && !(out.last() is Prefix) && !(out.last() is Root) {
        out.drop_last()
    } else {
        out
    }
}

/// `out` after the later parts `parts`: `.` is dropped, `..` goes up, any
/// other part is appended.
pub open spec fn fold_parts(out: Seq<PartView>, parts: Seq<PartView>) -> Seq<PartView>
    decreases parts.len(),
{
    if parts.len() == 0 {
        out
    } else {
        let o = fold_parts(out, parts.drop_last());
        match parts.last() {
            PartView::Cur => o,
            PartView::Parent => up(o),
            _ => o.push(parts.last()),
        }
    }
}

/// The normalized path: the current directory where `parts` is empty;
/// otherwise a path that starts at its prefix or root, or else at the
/// current directory followed by its first part, and then the later parts
/// folded in.
pub open spec fn normalized(cwd: Seq<PartView>, parts: Seq<PartView>) -> Seq<PartView> {
    if parts.len() == 0 {
        cwd
    } else {
        let start = if parts[0] is Prefix || parts[0] is Root {
            seq![parts[0]]
        } else {
            cwd.push(parts[0])
        };
        fold_parts(start, parts.drop_first())
    }
}

fn copy_part(p: &PathPart) -> (r: PathPart)
    ensures
        view_part(r) == view_part(*p),
{
    match p {
        PathPart::Prefix(b) => PathPart::Prefix(copy_vec(b)),
        PathPart::Root => PathPart::Root,
        PathPart::Cur => PathPart::Cur,
        PathPart::Parent => PathPart::Parent,
        PathPart::Normal(b) => PathPart::Normal(copy_vec(b)),
    }
}

/// Normalizes `parts` against the current directory `cwd`.
pub fn normalize_parts(cwd: Vec<PathPart>, parts: Vec<PathPart>) -> (r: Vec<PathPart>)
    ensures
        view_parts(r@) == normalized(view_parts(cwd@), view_parts(parts@)),
{
    if parts.len() == 0 {
        return cwd;
    }
    let mut out: Vec<PathPart> = Vec::new();
    let first = copy_part(&parts[0]);
    let rooted = match &parts[0] {
        PathPart::Prefix(_) => true,
        PathPart::Root => true,
        _ => false,
    };
    if rooted {
        out.push(first);
        assert(view_parts(out@) =~= seq![view_part(parts@[0])]);
    } else {
        out = cwd;
        let ghost c = view_parts(out@);
        out.push(first);
        assert(view_parts(out@) =~= c.push(view_part(parts@[0])));
    }
    let ghost start = view_parts(out@);
    let ghost rest = view_parts(parts@).drop_first();
    assert(start == if view_parts(parts@)[0] is Prefix || view_parts(parts@)[0] is Root {
        seq![view_parts(parts@)[0]]
    } else {
        view_parts(cwd@).push(view_parts(parts@)[0])
    });
    let mut i: usize = 1;
    assert(rest.subrange(0, 0) =~= Seq::<PartView>::empty());
    while i < parts.len()
        invariant
            1 <= i <= parts@.len(),
            rest == view_parts(parts@).drop_first(),
            view_parts(out@) == fold_parts(start, rest.subrange(0, i - 1)),
        decreases parts@.len() - i,
    {
        let ghost o = view_parts(out@);
        let ghost sub = rest.subrange(0, i as int);
        assert(sub.drop_last() =~= rest.subrange(0, i - 1));
        assert(sub.last() == view_part(parts@[i as int]));
        match &parts[i] {
            PathPart::Cur => {},
            PathPart::Parent => {
                let n = out.len();
                if n > 0 {
                    let go = match &out[n - 1] {
                        PathPart::Prefix(_) => false,
                        PathPart::Root => false,
                        _ => true,
                    };
                    if go {
                        out.pop();
                        assert(view_parts(out@) =~= o.drop_last());
                    }
                }
            },
            _ => {
                out.push(copy_part(&parts[i]));
                assert(view_parts(out@) =~= o.push(view_part(parts@[i as int])));
            },
        }
        i += 1;
    }
    assert(rest.subrange(0, i - 1) =~= rest);
    out
}

} // verus!
