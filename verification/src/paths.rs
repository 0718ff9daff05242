//! Unix paths as strings: their components as `std::path::Path` parses them,
//! the normalised text of a path, its last component, and how a path relates
//! to a root.

use vstd::prelude::*;
use crate::text::{chars_of, push_char, push_chars, string_of};

verus! {

/// `s` cut at every occurrence of `sep`; there is always at least one piece.
pub open spec fn split_by<A>(s: Seq<A>, sep: A) -> Seq<Seq<A>>
    decreases s.len(),
{
    if s.len() == 0 {
        seq![Seq::empty()]
    } else {
        let p = split_by(s.drop_last(), sep);
        if s.last() == sep {
            p.push(Seq::empty())
        } else {
            p.update(p.len() - 1, p.last().push(s.last()))
        }
    }
}

pub proof fn lemma_split_by_nonempty<A>(s: Seq<A>, sep: A)
    ensures
        split_by(s, sep).len() >= 1,
    decreases s.len(),
{
    if s.len() > 0 {
        lemma_split_by_nonempty(s.drop_last(), sep);
    }
}

/// The views of a vector of character vectors.
pub open spec fn views(v: Seq<Vec<char>>) -> Seq<Seq<char>> {
    v.map_values(|p: Vec<char>| p@)
}

pub proof fn lemma_views_push(s: Seq<Vec<char>>, x: Vec<char>)
    ensures
        views(s.push(x)) == views(s).push(x@),
{
    assert(views(s.push(x)) =~= views(s).push(x@));
}

/// Cuts `v` at every `sep`.
pub fn split_chars(v: &Vec<char>, sep: char) -> (parts: Vec<Vec<char>>)
    ensures
        views(parts@) == split_by(v@, sep),
{
    let mut parts: Vec<Vec<char>> = Vec::new();
    let mut cur: Vec<char> = Vec::new();
    assert(v@.take(0) =~= Seq::<char>::empty());
    assert(views(parts@).push(cur@) =~= split_by(v@.take(0), sep));
    for i in 0..v.len()
        invariant
            views(parts@).push(cur@) == split_by(v@.take(i as int), sep),
    {
        let c = v[i];
        assert(v@.take(i + 1).drop_last() =~= v@.take(i as int));
        assert(v@.take(i + 1).last() == c);
        let ghost before = views(parts@).push(cur@);
        if c == sep {
            parts.push(cur);
            cur = Vec::new();
            assert(views(parts@).push(cur@) =~= before.push(Seq::empty()));
        } else {
            cur.push(c);
            assert(views(parts@).push(cur@) =~= before.update(
                before.len() - 1,
                before.last().push(c),
            ));
        }
    }
    assert(v@.take(v.len() as int) =~= v@);
    parts.push(cur);
    assert(views(parts@) =~= split_by(v@, sep));
    parts
}

/// Whether a piece between slashes names a component of its own: it is not
/// empty and it is not `.`.
pub open spec fn is_component_piece(p: Seq<char>) -> bool {
    p.len() > 0 && p != seq!['.']
}

/// The pieces that name components, in order.
pub open spec fn component_pieces(parts: Seq<Seq<char>>) -> Seq<Seq<char>>
    decreases parts.len(),
{
    if parts.len() == 0 {
        seq![]
    } else {
        let p = component_pieces(parts.drop_last());
        if is_component_piece(parts.last()) {
            p.push(parts.last())
        } else {
            p
        }
    }
}

fn is_component(p: &Vec<char>) -> (b: bool)
    ensures
        b == is_component_piece(p@),
{
    if p.len() == 0 {
        false
    } else if p.len() == 1 && p[0] == '.' {
        assert(p@ =~= seq!['.']);
        false
    } else {
        assert(p@ != seq!['.']) by {
            if p@.len() == 1 {
                assert(p@[0] != seq!['.'][0]);
            }
        }
        true
    }
}

fn keep_components(parts: Vec<Vec<char>>) -> (r: Vec<Vec<char>>)
    ensures
        views(r@) == component_pieces(views(parts@)),
{
    let mut r: Vec<Vec<char>> = Vec::new();
    let n = parts.len();
    let ghost all = views(parts@);
    let mut i: usize = 0;
    assert(all.take(0) =~= Seq::<Seq<char>>::empty());
    while i < n
        invariant
            n == parts.len(),
            all == views(parts@),
            i <= n,
            views(r@) == component_pieces(all.take(i as int)),
        decreases n - i,
    {
        assert(all.take(i + 1).drop_last() =~= all.take(i as int));
        assert(all.take(i + 1).last() == parts@[i as int]@);
        let keep = is_component(&parts[i]);
        if keep {
            let piece = sub_vec(&parts[i]);
            r.push(piece);
            assert(views(r@) =~= component_pieces(all.take(i as int)).push(all[i as int]));
        }
        i += 1;
    }
    assert(all.take(n as int) =~= all);
    r
}

fn sub_vec(v: &Vec<char>) -> (r: Vec<char>)
    ensures
        r@ == v@,
{
    let r = crate::text::sub_chars(v, 0, v.len());
    assert(r@ =~= v@);
    r
}

/// Whether the path starts at the root directory.
pub open spec fn has_root(s: Seq<char>) -> bool {
    s.len() > 0 && s[0] == '/'
}

/// Whether a relative path starts with the current directory `.`.
pub open spec fn has_cur_dir(s: Seq<char>) -> bool {
    !has_root(s) && split_by(s, '/')[0] == seq!['.']
}

/// The components of the path `s`, as `Path::components` yields them on Unix:
/// the root `/` or a leading `.` first, where there is one, then every piece
/// between slashes that is neither empty nor `.`.
pub open spec fn path_components(s: Seq<char>) -> Seq<Seq<char>> {
    let head: Seq<Seq<char>> = if has_root(s) {
        seq![seq!['/']]
    } else if has_cur_dir(s) {
        seq![seq!['.']]
    } else {
        seq![]
    };
    head + component_pieces(split_by(s, '/'))
}

/// The pieces of `parts` with `sep` between each two of them.
pub open spec fn join_with(parts: Seq<Seq<char>>, sep: Seq<char>) -> Seq<char>
    decreases parts.len(),
{
    if parts.len() == 0 {
        seq![]
    } else if parts.len() == 1 {
        parts[0]
    } else {
        join_with(parts.drop_last(), sep) + sep + parts.last()
    }
}

/// Appends the pieces of `parts`, separated by `sep`, to `out`.
pub(crate) fn push_joined(out: &mut String, parts: &Vec<Vec<char>>, sep: &Vec<char>)
    ensures
        final(out)@ == old(out)@ + join_with(views(parts@), sep@),
{
    let ghost start = out@;
    let ghost all = views(parts@);
    assert(all.take(0) =~= Seq::<Seq<char>>::empty());
    for i in 0..parts.len()
        invariant
            all == views(parts@),
            out@ == start + join_with(all.take(i as int), sep@),
    {
        assert(all.take(i + 1).drop_last() =~= all.take(i as int));
        if i > 0 {
            push_chars(out, sep);
        }
        push_chars(out, &parts[i]);
        proof {
            if i == 0 {
                assert(all.take(1) =~= seq![all[0]]);
            }
        }
        assert(out@ =~= start + join_with(all.take(i + 1), sep@));
    }
    assert(all.take(parts.len() as int) =~= all);
}

/// The components of the path `v`.
pub fn components_of(v: &Vec<char>) -> (c: Vec<Vec<char>>)
    ensures
        views(c@) == path_components(v@),
{
    let parts = split_chars(v, '/');
    proof { lemma_split_by_nonempty(v@, '/'); }
    let rooted = v.len() > 0 && v[0] == '/';
    let cur = !rooted && parts[0].len() == 1 && parts[0][0] == '.';
    assert(cur == has_cur_dir(v@)) by {
        if parts@[0]@.len() == 1 {
            assert(parts@[0]@ =~= seq!['.'] <==> parts@[0]@[0] == '.');
        } else {
            assert(parts@[0]@.len() != seq!['.'].len());
        }
    }
    let kept = keep_components(parts);
    let mut c: Vec<Vec<char>> = Vec::new();
    if rooted {
        let mut r: Vec<char> = Vec::new();
        r.push('/');
        c.push(r);
    } else if cur {
        let mut d: Vec<char> = Vec::new();
        d.push('.');
        c.push(d);
    }
    let ghost head = views(c@);
    assert(head =~= (if has_root(v@) { seq![seq!['/']] } else if has_cur_dir(v@) {
        seq![seq!['.']] } else { seq![] }));
    let mut k: usize = 0;
    let ghost kv = views(kept@);
    while k < kept.len()
        invariant
            kv == views(kept@),
            k <= kept.len(),
            views(c@) == head + kv.take(k as int),
        decreases kept.len() - k,
    {
        let piece = sub_vec(&kept[k]);
        assert(piece@ == kv[k as int]);
        proof { lemma_views_push(c@, piece); }
        c.push(piece);
        k += 1;
        assert(views(c@) =~= head + kv.take(k as int));
    }
    assert(kv.take(kept.len() as int) =~= kv);
    c
}

/// The text of the path `s` written back from its components: the root `/`
/// followed by the other components separated by `/`, or all components
/// separated by `/` for a relative path.
pub open spec fn path_text(s: Seq<char>) -> Seq<char> {
    let c = path_components(s);
    if c.len() > 0 && c[0] == seq!['/'] {
        seq!['/'] + join_with(c.drop_first(), seq!['/'])
    } else {
        join_with(c, seq!['/'])
    }
}

/// The path `path`, written with single slashes between its components.
pub fn path_to_string(path: &str) -> (s: String)
    ensures
        s@ == path_text(path@),
{
    let v = chars_of(path);
    let comps = components_of(&v);
    let mut out = String::new();
    let mut slash: Vec<char> = Vec::new();
    slash.push('/');
    if comps.len() > 0 && comps[0].len() == 1 && comps[0][0] == '/' {
        assert(comps@[0]@ =~= seq!['/']);
        push_char(&mut out, '/');
        let mut rest: Vec<Vec<char>> = Vec::new();
        let mut k: usize = 1;
        let ghost cv = views(comps@);
        while k < comps.len()
            invariant
                cv == views(comps@),
                1 <= k <= comps.len(),
                views(rest@) == cv.subrange(1, k as int),
            decreases comps.len() - k,
        {
            let piece = sub_vec(&comps[k]);
            assert(piece@ == cv[k as int]);
            proof { lemma_views_push(rest@, piece); }
            rest.push(piece);
            k += 1;
            assert(views(rest@) =~= cv.subrange(1, k as int));
        }
        assert(cv.subrange(1, cv.len() as int) =~= cv.drop_first());
        push_joined(&mut out, &rest, &slash);
        assert(out@ =~= seq!['/'] + join_with(cv.drop_first(), seq!['/']));
    } else {
        proof {
            if comps@.len() > 0 && comps@[0]@ == seq!['/'] {
                assert(comps@[0]@.len() == 1 && comps@[0]@[0] == '/');
            }
        }
        push_joined(&mut out, &comps, &slash);
        assert(out@ =~= join_with(views(comps@), seq!['/']));
    }
    out
}

/// The last component of `s` when it is a normal name, as `Path::file_name`
/// returns it: none for a path that ends in `..`, for the root and for `.`.
pub open spec fn file_name(s: Seq<char>) -> Option<Seq<char>> {
    let n = component_pieces(split_by(s, '/'));
    if n.len() == 0 || n.last() == seq!['.', '.'] {
        None
    } else {
        Some(n.last())
    }
}

/// The basename of a relative path: its file name, or the whole path where it
/// has none.
pub open spec fn basename_of(s: Seq<char>) -> Seq<char> {
    match file_name(s) {
        Some(n) => n,
        None => s,
    }
}

/// The basename of `v`, as characters.
pub fn basename_chars(v: &Vec<char>) -> (b: Vec<char>)
    ensures
        b@ == basename_of(v@),
{
    let parts = split_chars(v, '/');
    let kept = keep_components(parts);
    let n = kept.len();
    if n == 0 {
        return sub_vec(v);
    }
    let last = &kept[n - 1];
    assert(views(kept@).last() == last@);
    if last.len() == 2 && last[0] == '.' && last[1] == '.' {
        assert(last@ =~= seq!['.', '.']);
        sub_vec(v)
    } else {
        assert(last@ != seq!['.', '.']) by {
            if last@.len() == 2 {
                assert(last@[0] != '.' || last@[1] != '.');
                if last@[0] != '.' {
                    assert(last@[0] != seq!['.', '.'][0]);
                } else {
                    assert(last@[1] != seq!['.', '.'][1]);
                }
            }
        }
        sub_vec(last)
    }
}

/// The basename of `path`: the last component of the path, or the path itself
/// where it ends in `..` or names the root.
pub fn basename(path: &str) -> (b: String)
    ensures
        b@ == basename_of(path@),
{
    string_of(&basename_chars(&chars_of(path)))
}

/// `s` without its trailing slashes.
pub open spec fn trim_end_slashes(s: Seq<char>) -> Seq<char>
    decreases s.len(),
{
    if s.len() > 0 && s.last() == '/' {
        trim_end_slashes(s.drop_last())
    } else {
        s
    }
}

/// The full path of `rel_path` under the remote `root`.
pub open spec fn remote_join(root: Seq<char>, rel: Seq<char>) -> Seq<char> {
    if root == seq!['/'] {
        seq!['/'] + rel
    } else {
        trim_end_slashes(root) + seq!['/'] + rel
    }
}

/// Joins a relative path to a remote root.
pub fn join_remote_path(root: &str, rel_path: &str) -> (s: String)
    ensures
        s@ == remote_join(root@, rel_path@),
{
    let r = chars_of(root);
    let rel = chars_of(rel_path);
    let mut out = String::new();
    if r.len() == 1 && r[0] == '/' {
        assert(r@ =~= seq!['/']);
        push_char(&mut out, '/');
        push_chars(&mut out, &rel);
        assert(out@ =~= seq!['/'] + rel@);
    } else {
        assert(r@ != seq!['/']) by {
            if r@.len() == 1 {
                assert(r@[0] != seq!['/'][0]);
            }
        }
        let mut end = r.len();
        assert(r@.subrange(0, end as int) =~= r@);
        while end > 0 && r[end - 1] == '/'
            invariant
                end <= r.len(),
                trim_end_slashes(r@) == trim_end_slashes(r@.subrange(0, end as int)),
            decreases end,
        {
            assert(r@.subrange(0, end as int).drop_last() =~= r@.subrange(0, end - 1));
            end -= 1;
        }
        let kept = crate::text::sub_chars(&r, 0, end);
        push_chars(&mut out, &kept);
        push_char(&mut out, '/');
        push_chars(&mut out, &rel);
        assert(out@ =~= trim_end_slashes(r@) + seq!['/'] + rel@);
    }
    out
}

pub proof fn lemma_split_by_append(s: Seq<char>, t: Seq<char>, sep: char)
    requires
        forall|i: int| 0 <= i < t.len() ==> t[i] != sep,
    ensures
        split_by(s + seq![sep] + t, sep) == split_by(s, sep).push(t),
    decreases t.len(),
{
    let u = s + seq![sep] + t;
    if t.len() == 0 {
        assert(u.drop_last() =~= s);
        assert(t =~= Seq::<char>::empty());
    } else {
        lemma_split_by_append(s, t.drop_last(), sep);
        assert(u.drop_last() =~= s + seq![sep] + t.drop_last());
        assert(u.last() == t.last());
        let p = split_by(s, sep).push(t.drop_last());
        assert(t.drop_last().push(t.last()) =~= t);
        assert(p.update(p.len() - 1, p.last().push(t.last())) =~= split_by(s, sep).push(t));
    }
}

/// The basename of a path that ends in a name is that name: `a/b/c` has the
/// basename `c`.
pub proof fn law_basename_is_last_component(p: Seq<char>, name: Seq<char>)
    requires
        is_component_piece(name),
        name != seq!['.', '.'],
        forall|i: int| 0 <= i < name.len() ==> name[i] != '/',
    ensures
        basename_of(p + seq!['/'] + name) == name,
{
    lemma_split_by_append(p, name, '/');
    let parts = split_by(p, '/').push(name);
    assert(parts.drop_last() =~= split_by(p, '/'));
}

proof fn lemma_split_pieces_have_no_sep(s: Seq<char>, sep: char)
    ensures
        forall|k: int, i: int| 0 <= k < split_by(s, sep).len() && 0 <= i < split_by(s, sep)[k].len()
            ==> #[trigger] split_by(s, sep)[k][i] != sep,
    decreases s.len(),
{
    if s.len() > 0 {
        lemma_split_pieces_have_no_sep(s.drop_last(), sep);
        lemma_split_by_nonempty(s.drop_last(), sep);
        let p = split_by(s.drop_last(), sep);
        if s.last() != sep {
            let q = p.update(p.len() - 1, p.last().push(s.last()));
            assert forall|k: int, i: int| 0 <= k < q.len() && 0 <= i < q[k].len() implies #[trigger] q[k][i] != sep by {
                if k == p.len() - 1 && i == p.last().len() {
                } else if k == p.len() - 1 {
                    assert(q[k][i] == p[k][i]);
                }
            }
        } else {
            let q = p.push(Seq::<char>::empty());
            assert forall|k: int, i: int| 0 <= k < q.len() && 0 <= i < q[k].len() implies #[trigger] q[k][i] != sep by {
                assert(q[k] == p[k]);
            }
        }
    }
}

proof fn lemma_component_pieces_from(parts: Seq<Seq<char>>)
    ensures
        forall|k: int| 0 <= k < component_pieces(parts).len() ==> is_component_piece(#[trigger] component_pieces(parts)[k])
            && parts.contains(component_pieces(parts)[k]),
    decreases parts.len(),
{
    if parts.len() > 0 {
        let d = parts.drop_last();
        lemma_component_pieces_from(d);
        let c = component_pieces(parts);
        assert forall|k: int| 0 <= k < c.len() implies is_component_piece(#[trigger] c[k]) && parts.contains(c[k]) by {
            if k < component_pieces(d).len() {
                let x = component_pieces(d)[k];
                assert(c[k] == x);
                let m = choose|m: int| 0 <= m < d.len() && d[m] == x;
                assert(parts[m] == x);
            } else {
                assert(c[k] == parts.last());
                assert(parts[parts.len() - 1] == parts.last());
            }
        }
    }
}

proof fn lemma_join_with_prefix(c: Seq<Seq<char>>, sep: Seq<char>)
    requires
        c.len() > 0,
    ensures
        join_with(c, sep).len() >= c[0].len(),
        join_with(c, sep).subrange(0, c[0].len() as int) == c[0],
    decreases c.len(),
{
    if c.len() > 1 {
        lemma_join_with_prefix(c.drop_last(), sep);
        let j = join_with(c.drop_last(), sep);
        assert((j + sep + c.last()).subrange(0, c[0].len() as int) =~= j.subrange(0, c[0].len() as int));
    } else {
        assert(c[0].subrange(0, c[0].len() as int) =~= c[0]);
    }
}

/// A path is written back starting with `/` exactly when it starts at the
/// root: `path_to_string` keeps absolute paths absolute and relative ones
/// relative.
pub proof fn law_path_text_keeps_root(s: Seq<char>)
    ensures
        (path_text(s).len() > 0 && path_text(s)[0] == '/') <==> has_root(s),
{
    let c = path_components(s);
    let parts = split_by(s, '/');
    lemma_split_by_nonempty(s, '/');
    if has_root(s) {
        assert(c[0] == seq!['/']);
    } else if c.len() > 0 {
        lemma_split_pieces_have_no_sep(s, '/');
        lemma_component_pieces_from(parts);
        let first = c[0];
        assert(first.len() > 0 && first[0] != '/') by {
            if has_cur_dir(s) {
                assert(first == seq!['.']);
            } else {
                assert(first == component_pieces(parts)[0]);
                assert(is_component_piece(first));
                let m = choose|m: int| 0 <= m < parts.len() && parts[m] == first;
                assert(parts[m][0] != '/');
            }
        }
        assert(first != seq!['/']) by {
            assert(first[0] != seq!['/'][0]);
        }
        lemma_join_with_prefix(c, seq!['/']);
        assert(join_with(c, seq!['/']).subrange(0, first.len() as int)[0] == first[0]);
    } else {
        assert(path_text(s) =~= Seq::<char>::empty());
    }
}

proof fn lemma_split_without_sep(t: Seq<char>, sep: char)
    requires
        forall|i: int| 0 <= i < t.len() ==> t[i] != sep,
    ensures
        split_by(t, sep) == seq![t],
    decreases t.len(),
{
    if t.len() > 0 {
        lemma_split_without_sep(t.drop_last(), sep);
        assert(t.drop_last().push(t.last()) =~= t);
        assert(seq![t.drop_last()].update(0, t.drop_last().push(t.last())) =~= seq![t]);
    } else {
        assert(t =~= Seq::<char>::empty());
    }
}

proof fn lemma_split_join(parts: Seq<Seq<char>>)
    requires
        parts.len() >= 1,
        forall|k: int, i: int| 0 <= k < parts.len() && 0 <= i < parts[k].len() ==> #[trigger] parts[k][i] != '/',
    ensures
        split_by(join_with(parts, seq!['/']), '/') == parts,
    decreases parts.len(),
{
    if parts.len() == 1 {
        assert forall|i: int| 0 <= i < parts[0].len() implies parts[0][i] != '/' by {
            assert(parts[0][i] != '/');
        }
        lemma_split_without_sep(parts[0], '/');
        assert(seq![parts[0]] =~= parts);
    } else {
        let d = parts.drop_last();
        assert forall|k: int, i: int| 0 <= k < d.len() && 0 <= i < d[k].len() implies #[trigger] d[k][i] != '/' by {
            assert(d[k] == parts[k]);
        }
        lemma_split_join(d);
        assert forall|i: int| 0 <= i < parts.last().len() implies parts.last()[i] != '/' by {
            assert(parts[parts.len() - 1][i] != '/');
        }
        lemma_split_by_append(join_with(d, seq!['/']), parts.last(), '/');
        assert(d.push(parts.last()) =~= parts);
    }
}

proof fn lemma_component_pieces_all(p: Seq<Seq<char>>)
    requires
        forall|k: int| 0 <= k < p.len() ==> is_component_piece(#[trigger] p[k]),
    ensures
        component_pieces(p) == p,
    decreases p.len(),
{
    if p.len() > 0 {
        let d = p.drop_last();
        assert forall|k: int| 0 <= k < d.len() implies is_component_piece(#[trigger] d[k]) by {
            assert(d[k] == p[k]);
        }
        lemma_component_pieces_all(d);
        assert(is_component_piece(p[p.len() - 1]));
        assert(d.push(p.last()) =~= p);
    }
}

proof fn lemma_component_pieces_concat(a: Seq<Seq<char>>, b: Seq<Seq<char>>)
    ensures
        component_pieces(a + b) == component_pieces(a) + component_pieces(b),
    decreases b.len(),
{
    if b.len() == 0 {
        assert(a + b =~= a);
        assert(component_pieces(a) + component_pieces(b) =~= component_pieces(a));
    } else {
        lemma_component_pieces_concat(a, b.drop_last());
        assert((a + b).drop_last() =~= a + b.drop_last());
        assert((a + b).last() == b.last());
        if is_component_piece(b.last()) {
            assert(component_pieces(a) + component_pieces(b.drop_last()).push(b.last())
                =~= (component_pieces(a) + component_pieces(b.drop_last())).push(b.last()));
        }
    }
}

proof fn lemma_join_with_front(x: Seq<char>, p: Seq<Seq<char>>, sep: Seq<char>)
    requires
        p.len() >= 1,
    ensures
        join_with(seq![x] + p, sep) == x + sep + join_with(p, sep),
    decreases p.len(),
{
    let q = seq![x] + p;
    if p.len() == 1 {
        assert(q.drop_last() =~= seq![x]);
        assert(q.last() == p[0]);
        assert(join_with(seq![x], sep) == x);
        assert(join_with(p, sep) == p[0]);
    } else {
        lemma_join_with_front(x, p.drop_last(), sep);
        assert(q.drop_last() =~= seq![x] + p.drop_last());
        assert(q.last() == p.last());
        assert(join_with(q, sep) =~= x + sep + join_with(p, sep));
    }
}

/// Writing a path back from its components keeps its components:
/// `path_to_string` gives a path with the same components as the one it was
/// given, and gives the empty text exactly for a path without components.
pub proof fn law_path_text_keeps_components(s: Seq<char>)
    ensures
        path_components(path_text(s)) == path_components(s),
        path_text(s).len() == 0 <==> path_components(s).len() == 0,
{
    let parts = split_by(s, '/');
    let n = component_pieces(parts);
    let c = path_components(s);
    let t = path_text(s);
    lemma_split_by_nonempty(s, '/');
    lemma_split_pieces_have_no_sep(s, '/');
    lemma_component_pieces_from(parts);
    assert forall|k: int, i: int| 0 <= k < n.len() && 0 <= i < n[k].len() implies #[trigger] n[k][i] != '/' by {
        let m = choose|m: int| 0 <= m < parts.len() && parts[m] == n[k];
        assert(parts[m][i] != '/');
    }
    assert(forall|k: int| 0 <= k < n.len() ==> is_component_piece(#[trigger] n[k]));
    lemma_component_pieces_all(n);
    let empty = Seq::<char>::empty();
    let dot = seq!['.'];
    assert(!is_component_piece(empty));
    assert(!is_component_piece(dot));
    assert(component_pieces(Seq::<Seq<char>>::empty()) =~= Seq::<Seq<char>>::empty());
    assert(component_pieces(seq![empty]) =~= Seq::<Seq<char>>::empty()) by {
        assert(seq![empty].drop_last() =~= Seq::<Seq<char>>::empty());
    }
    assert(component_pieces(seq![dot]) =~= Seq::<Seq<char>>::empty()) by {
        assert(seq![dot].drop_last() =~= Seq::<Seq<char>>::empty());
    }
    if has_root(s) {
        assert(c == seq![seq!['/']] + n);
        assert(c[0] == seq!['/']);
        assert(c.drop_first() =~= n);
        if n.len() == 0 {
            assert(t =~= seq!['/']);
            assert(seq!['/'].drop_last() =~= empty);
            assert(split_by(seq!['/'], '/') =~= seq![empty, empty]) by {
                assert(split_by(empty, '/') == seq![empty]);
            }
            assert(component_pieces(seq![empty, empty]) =~= Seq::<Seq<char>>::empty()) by {
                assert(seq![empty, empty].drop_last() =~= seq![empty]);
            }
        } else {
            let q = seq![empty] + n;
            lemma_join_with_front(empty, n, seq!['/']);
            assert(t =~= join_with(q, seq!['/']));
            assert forall|k: int, i: int| 0 <= k < q.len() && 0 <= i < q[k].len() implies #[trigger] q[k][i] != '/' by {
                assert(q[k] == n[k - 1]);
            }
            lemma_split_join(q);
            lemma_component_pieces_concat(seq![empty], n);
            assert(t[0] == '/');
        }
        assert(path_components(t) =~= c);
    } else if has_cur_dir(s) {
        assert(c == seq![dot] + n);
        assert(c[0] != seq!['/']) by { assert(c[0][0] != seq!['/'][0]); }
        assert(t == join_with(c, seq!['/']));
        assert forall|k: int, i: int| 0 <= k < c.len() && 0 <= i < c[k].len() implies #[trigger] c[k][i] != '/' by {
            if k > 0 {
                assert(c[k] == n[k - 1]);
            }
        }
        lemma_split_join(c);
        lemma_join_with_prefix(c, seq!['/']);
        assert(t.subrange(0, 1)[0] == t[0]);
        assert(t[0] == '.');
        lemma_component_pieces_concat(seq![dot], n);
        assert(path_components(t) =~= c);
    } else {
        assert(c =~= n);
        if n.len() == 0 {
            assert(t =~= empty);
            assert(split_by(empty, '/') == seq![empty]);
            assert(path_components(t) =~= c);
        } else {
            assert(c[0] != seq!['/']) by { assert(c[0][0] != '/'); assert(seq!['/'][0] == '/'); }
            assert(t == join_with(n, seq!['/']));
            lemma_split_join(n);
            lemma_join_with_prefix(n, seq!['/']);
            assert(t.subrange(0, n[0].len() as int)[0] == t[0]);
            assert(t[0] != '/');
            assert(split_by(t, '/')[0] == n[0]);
            assert(n[0] != dot);
            assert(path_components(t) =~= c);
        }
    }
    if c.len() > 0 {
        if !has_root(s) {
            lemma_join_with_prefix(c, seq!['/']);
        }
    }
}

} // verus!
