//! The decisions of the walk through a local tree: what each directory
//! found is recorded as, and whether the walk goes below it.

use vstd::prelude::*;
use crate::paths::{split_by, lemma_split_by_append, lemma_split_by_nonempty, component_pieces, has_root, has_cur_dir, is_component_piece, components_of, path_components, path_text, path_to_string, join_with, views,
    push_joined};
use crate::text::{chars_eq, chars_of};
use crate::uri::{file_uri, local_uri};
use crate::dirmap::{DirMap, DirPairs, as_map};

verus! {

/// What becomes of one directory met during the walk.
pub struct LocalEntry {
    /// The relative path and the `file://` URI to record, unless the
    /// directory is the root itself.
    pub record: Option<(String, String)>,
    /// Whether to read the directory in turn.
    pub descend: bool,
    /// Its depth below the root.
    pub depth: usize,
}

/// The components of `path` after those of `root`, when `root`'s components
/// begin `path`'s, as `Path::strip_prefix` gives them.
pub open spec fn components_below(root: Seq<char>, path: Seq<char>) -> Option<Seq<Seq<char>>> {
    let rc = path_components(root);
    let pc = path_components(path);
    if rc.len() <= pc.len() && pc.take(rc.len() as int) == rc {
        Some(pc.skip(rc.len() as int))
    } else {
        None
    }
}

/// Whether the walk reads a directory at `depth` (one below its parent):
/// always without a limit, else while `depth` stays below it.
pub open spec fn within_depth(depth: int, max_depth: Option<usize>) -> bool {
    match max_depth {
        Some(d) => depth < d,
        None => true,
    }
}

/// What the walk makes of the directory `path`, found in a directory at
/// `parent_depth` under `root`.
pub open spec fn local_entry_outcome(root: Seq<char>, path: Seq<char>, parent_depth: int,
    max_depth: Option<usize>) -> Result<(Option<(Seq<char>, Seq<char>)>, bool), Seq<char>> {
    match components_below(root, path) {
        None => Err("failed to compute relative path for `"@ + path + "`"@),
        Some(rest) => Ok((
            if rest.len() > 0 {
                Some((join_with(rest, seq!['/']), file_uri(path_text(path))))
            } else {
                None
            },
            within_depth(parent_depth + 1, max_depth),
        )),
    }
}

/// Decides what the walk does with the directory `path` met inside a
/// directory at depth `depth` under `root`: record its path relative to
/// `root` with its URI, and read it in turn while the depth limit allows.
pub fn local_dir_entry(root: &str, path: &str, depth: usize, max_depth: Option<usize>) -> (r: Result<LocalEntry, String>)
    requires
        depth < usize::MAX,
    ensures
        match r {
            Ok(e) => e.depth == depth + 1 && local_entry_outcome(root@, path@, depth as int, max_depth) == Ok::<(Option<(Seq<char>, Seq<char>)>, bool), Seq<char>>((
                match e.record {
                    Some((rel, full)) => Some((rel@, full@)),
                    None => None,
                },
                e.descend,
            )),
            Err(msg) => local_entry_outcome(root@, path@, depth as int, max_depth) == Err::<(Option<(Seq<char>, Seq<char>)>, bool), Seq<char>>(msg@),
        },
{
    let rc = components_of(&chars_of(root));
    let pc = components_of(&chars_of(path));
    let ghost rv = views(rc@);
    let ghost pv = views(pc@);
    let mut prefix = rc.len() <= pc.len();
    let mut k: usize = 0;
    while prefix && k < rc.len()
        invariant
            rv == views(rc@),
            pv == views(pc@),
            prefix ==> rc.len() <= pc.len(),
            k <= rc.len(),
            prefix ==> forall|m: int| 0 <= m < k ==> rv[m] == pv[m],
            !prefix ==> !(rv.len() <= pv.len() && pv.take(rv.len() as int) == rv),
        decreases rc.len() - k,
    {
        if !chars_eq(&rc[k], &pc[k]) {
            proof {
                if rv.len() <= pv.len() && pv.take(rv.len() as int) == rv {
                    assert(pv.take(rv.len() as int)[k as int] == pv[k as int]);
                }
            }
            prefix = false;
        }
        k += 1;
    }
    if !prefix {
        let mut msg = String::new();
        msg.append("failed to compute relative path for `");
        msg.append(path);
        msg.append("`");
        return Err(msg);
    }
    assert(pv.take(rv.len() as int) =~= rv);
    let n = pc.len();
    let mut rest: Vec<Vec<char>> = Vec::new();
    let mut m = rc.len();
    while m < n
        invariant
            rv == views(rc@),
            pv == views(pc@),
            n == pc.len(),
            rc.len() <= m <= n,
            views(rest@) == pv.subrange(rc.len() as int, m as int),
        decreases n - m,
    {
        let piece = crate::text::sub_chars(&pc[m], 0, pc[m].len());
        assert(pc[m as int]@.subrange(0, pc[m as int]@.len() as int) =~= pc[m as int]@);
        proof { crate::paths::lemma_views_push(rest@, piece); }
        rest.push(piece);
        m += 1;
        assert(views(rest@) =~= pv.subrange(rc.len() as int, m as int));
    }
    assert(pv.subrange(rc.len() as int, n as int) =~= pv.skip(rv.len() as int));
    let record = if rest.len() > 0 {
        let mut rel = String::new();
        let mut slash: Vec<char> = Vec::new();
        slash.push('/');
        push_joined(&mut rel, &rest, &slash);
        assert(rel@ =~= join_with(views(rest@), seq!['/']));
        let full = path_to_string(path);
        Some((rel, local_uri(full.as_str())))
    } else {
        None
    };
    let new_depth = depth + 1;
    let descend = match max_depth {
        Some(d) => new_depth < d,
        None => true,
    };
    Ok(LocalEntry { record, descend, depth: new_depth })
}

/// The state of the walk through a local tree: the directories still to
/// read, each with its depth below the root, and the directories recorded so
/// far. `P` is how the caller names a directory it can read.
pub struct LocalWalk<P> {
    root: String,
    max_depth: Option<usize>,
    stack: Vec<(P, usize)>,
    dirs: DirMap,
}

impl<P> LocalWalk<P> {
    /// The text of the root.
    pub closed spec fn root_text(&self) -> Seq<char> {
        self.root@
    }

    /// The depth limit.
    pub closed spec fn limit(&self) -> Option<usize> {
        self.max_depth
    }

    /// The directories still to read, the last one first.
    pub closed spec fn pending(&self) -> Seq<(P, usize)> {
        self.stack@
    }

    /// The directories recorded so far.
    pub closed spec fn recorded(&self) -> DirPairs {
        self.dirs@
    }

    /// Every directory waiting to be read is the root, or lies within the
    /// depth limit.
    #[verifier::type_invariant]
    spec fn within_limit(self) -> bool {
        forall|k: int| 0 <= k < self.stack@.len() ==> #[trigger] self.stack@[k].1 == 0
            || within_depth(self.stack@[k].1 as int, self.max_depth)
    }

    /// A walk that has still to read the root, and has recorded nothing.
    pub fn new(root_text: String, root: P, max_depth: Option<usize>) -> (w: Self)
        ensures
            w.root_text() == root_text@,
            w.limit() == max_depth,
            w.pending() == seq![(root, 0usize)],
            w.recorded() == Seq::<(Seq<char>, Seq<char>)>::empty(),
    {
        let mut stack: Vec<(P, usize)> = Vec::new();
        stack.push((root, 0));
        let w = LocalWalk { root: root_text, max_depth, stack, dirs: DirMap::new() };
        assert(w.stack@ =~= seq![(root, 0usize)]);
        w
    }

    /// Takes the next directory to read, with its depth: the last one
    /// pushed. Its depth is 0, for the root, or within the limit.
    pub fn next_dir(&mut self) -> (d: Option<(P, usize)>)
        ensures
            final(self).root_text() == old(self).root_text(),
            final(self).limit() == old(self).limit(),
            final(self).recorded() == old(self).recorded(),
            old(self).pending().len() == 0 ==> d is None && final(self).pending() == old(self).pending(),
            old(self).pending().len() > 0 ==> d == Some(old(self).pending().last())
                && final(self).pending() == old(self).pending().drop_last(),
            d matches Some((_, depth)) ==> depth == 0 || within_depth(depth as int, old(self).limit()),
    {
        proof { use_type_invariant(&*self); }
        let mut stack: Vec<(P, usize)> = Vec::new();
        std::mem::swap(&mut stack, &mut self.stack);
        let d = stack.pop();
        proof {
            if d is Some {
                assert(d == Some(old(self).stack@.last()));
                assert(old(self).stack@[old(self).stack@.len() - 1] == old(self).stack@.last());
            }
        }
        self.stack = stack;
        d
    }

    /// Meets the directory `path` (written `path_text`) inside a directory at
    /// `parent_depth`: records it as [`local_entry_outcome`] says, and keeps it
    /// to read when the depth limit allows. The state is unchanged on error.
    pub fn visit(&mut self, parent_depth: usize, path_text: &str, path: P) -> (r: Result<(), String>)
        requires
            parent_depth < usize::MAX,
        ensures
            final(self).root_text() == old(self).root_text(),
            final(self).limit() == old(self).limit(),
            match r {
                Err(msg) => local_entry_outcome(old(self).root_text(), path_text@, parent_depth as int, old(self).limit())
                    == Err::<(Option<(Seq<char>, Seq<char>)>, bool), Seq<char>>(msg@)
                    && final(self).pending() == old(self).pending()
                    && final(self).recorded() == old(self).recorded(),
                Ok(_) => match local_entry_outcome(old(self).root_text(), path_text@, parent_depth as int, old(self).limit()) {
                    Err(_) => false,
                    Ok((record, descend)) => as_map(final(self).recorded()) == (match record {
                        Some((rel, full)) => as_map(old(self).recorded()).insert(rel, full),
                        None => as_map(old(self).recorded()),
                    }) && final(self).pending() == (if descend {
                        old(self).pending().push((path, (parent_depth + 1) as usize))
                    } else {
                        old(self).pending()
                    }),
                },
            },
    {
        proof { use_type_invariant(&*self); }
        match local_dir_entry(self.root.as_str(), path_text, parent_depth, self.max_depth) {
            Err(msg) => Err(msg),
            Ok(entry) => {
                let ghost old_dirs = self.dirs@;
                match entry.record {
                    Some((rel, full)) => {
                        let mut dirs = DirMap::new();
                        std::mem::swap(&mut dirs, &mut self.dirs);
                        dirs.insert(rel, full);
                        self.dirs = dirs;
                    },
                    None => {},
                }
                if entry.descend {
                    let mut stack: Vec<(P, usize)> = Vec::new();
                    std::mem::swap(&mut stack, &mut self.stack);
                    stack.push((path, entry.depth));
                    proof {
                        assert forall|k: int| 0 <= k < stack@.len() implies #[trigger] stack@[k].1 == 0
                            || within_depth(stack@[k].1 as int, self.max_depth) by {
                            if k < stack@.len() - 1 {
                                assert(stack@[k] == old(self).stack@[k]);
                            }
                        }
                    }
                    self.stack = stack;
                }
                Ok(())
            },
        }
    }

    /// The directories recorded by the walk.
    pub fn finish(self) -> (m: DirMap)
        ensures
            m@ == self.recorded(),
    {
        self.dirs
    }
}

/// A directory named `n` found directly in the root `r` is recorded under
/// the relative path `n`, with the URI of `r/n`, whatever the name looks
/// like (a hidden name such as `.git` included); it is read in turn as the
/// depth limit allows. The components of `r/n` are those of `r` followed by
/// `n`.
pub proof fn law_child_is_recorded_by_its_name(r: Seq<char>, n: Seq<char>, depth: int, max_depth: Option<usize>)
    requires
        r.len() > 0,
        n.len() > 0,
        n != seq!['.'],
        forall|i: int| 0 <= i < n.len() ==> n[i] != '/',
    ensures
        path_components(r + seq!['/'] + n) == path_components(r).push(n),
        local_entry_outcome(r, r + seq!['/'] + n, depth, max_depth) == Ok::<(Option<(Seq<char>, Seq<char>)>, bool), Seq<char>>((
            Some((n, file_uri(path_text(r + seq!['/'] + n)))),
            within_depth(depth + 1, max_depth),
        )),
{
    let s = r + seq!['/'] + n;
    lemma_split_by_append(r, n, '/');
    lemma_split_by_nonempty(r, '/');
    let parts = split_by(r, '/');
    assert(split_by(s, '/') == parts.push(n));
    assert(is_component_piece(n));
    assert(parts.push(n).drop_last() =~= parts);
    assert(component_pieces(parts.push(n)) == component_pieces(parts).push(n));
    assert(s[0] == r[0]);
    assert(has_root(s) == has_root(r));
    assert(split_by(s, '/')[0] == parts[0]);
    assert(has_cur_dir(s) == has_cur_dir(r));
    let head: Seq<Seq<char>> = if has_root(r) {
        seq![seq!['/']]
    } else if has_cur_dir(r) {
        seq![seq!['.']]
    } else {
        seq![]
    };
    assert(path_components(s) =~= path_components(r).push(n)) by {
        assert(path_components(s) == head + component_pieces(parts).push(n));
        assert(path_components(r) == head + component_pieces(parts));
    }
    let rc = path_components(r);
    let pc = path_components(s);
    assert(pc.take(rc.len() as int) =~= rc);
    assert(pc.skip(rc.len() as int) =~= seq![n]);
    assert(join_with(seq![n], seq!['/']) == n);
}

} // verus!
