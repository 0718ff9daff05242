//! The report: the relative directories present on one side only, grouped
//! by basename.

use vstd::prelude::*;
use crate::dirmap::{DirMap, DirPairs, has_key, str_lt, chars_lt, lemma_str_lt_irreflexive,
    lemma_str_lt_transitive, lemma_str_lt_total, keys_sorted};
use crate::paths::{basename_of, basename_chars, join_with};
use crate::text::{chars_of, push_char, push_chars};

verus! {

/// The side of the comparison a directory was found on.
#[derive(Clone, Copy, Debug, PartialEq, Eq)]
pub enum Side {
    Left,
    Right,
}

/// The letter that marks a row of the side.
pub open spec fn side_letter(side: Side) -> char {
    match side {
        Side::Left => 'L',
        Side::Right => 'R',
    }
}

impl Side {
    /// `L` for the left side, `R` for the right side.
    pub fn prefix(self) -> (p: &'static str)
        ensures
            p@ == seq![side_letter(self)],
    {
        match self {
            Side::Left => {
                proof { reveal_strlit("L"); }
                "L"
            },
            Side::Right => {
                proof { reveal_strlit("R"); }
                "R"
            },
        }
    }
}

/// How the report is decorated.
#[derive(Clone, Copy, Debug)]
pub struct RenderOptions {
    /// Make each relative path an OSC 8 hyperlink to its full URI.
    pub hyperlink: bool,
    /// Show the basename rows in blue.
    pub color: bool,
}

/// `text` between the escape sequences that turn the terminal's foreground
/// blue and back.
pub open spec fn blue_text(text: Seq<char>) -> Seq<char> {
    seq!['\x1b', '[', '3', '4', 'm'] + text + seq!['\x1b', '[', '0', 'm']
}

/// `text` as an OSC 8 hyperlink to `uri`.
pub open spec fn osc8_text(text: Seq<char>, uri: Seq<char>) -> Seq<char> {
    seq!['\x1b', ']', '8', ';', ';'] + uri + seq!['\x1b', '\\'] + text + seq![
        '\x1b',
        ']',
        '8',
        ';',
        ';',
        '\x1b',
        '\\',
    ]
}

/// The heading row of a group.
pub open spec fn basename_row(name: Seq<char>, color: bool) -> Seq<char> {
    if color {
        blue_text(name)
    } else {
        name
    }
}

fn push_str_chars(out: &mut String, s: &str)
    ensures
        final(out)@ == old(out)@ + s@,
{
    out.append(s);
}

fn push_blue(out: &mut String, text: &Vec<char>)
    ensures
        final(out)@ == old(out)@ + blue_text(text@),
{
    let ghost start = out@;
    push_char(out, '\x1b');
    push_char(out, '[');
    push_char(out, '3');
    push_char(out, '4');
    push_char(out, 'm');
    push_chars(out, text);
    push_char(out, '\x1b');
    push_char(out, '[');
    push_char(out, '0');
    push_char(out, 'm');
    assert(out@ =~= start + blue_text(text@));
}

fn push_osc8(out: &mut String, text: &Vec<char>, uri: &Vec<char>)
    ensures
        final(out)@ == old(out)@ + osc8_text(text@, uri@),
{
    let ghost start = out@;
    push_char(out, '\x1b');
    push_char(out, ']');
    push_char(out, '8');
    push_char(out, ';');
    push_char(out, ';');
    push_chars(out, uri);
    push_char(out, '\x1b');
    push_char(out, '\\');
    push_chars(out, text);
    push_char(out, '\x1b');
    push_char(out, ']');
    push_char(out, '8');
    push_char(out, ';');
    push_char(out, ';');
    push_char(out, '\x1b');
    push_char(out, '\\');
    assert(out@ =~= start + osc8_text(text@, uri@));
}

/// `text` in blue, for a terminal.
pub fn blue(text: &str) -> (s: String)
    ensures
        s@ == blue_text(text@),
{
    let mut out = String::new();
    push_blue(&mut out, &chars_of(text));
    out
}

/// `text` as a terminal hyperlink to `uri`.
pub fn osc8_link(text: &str, uri: &str) -> (s: String)
    ensures
        s@ == osc8_text(text@, uri@),
{
    let mut out = String::new();
    push_osc8(&mut out, &chars_of(text), &chars_of(uri));
    out
}

/// The heading row of the group `name`: blue when `color` is set.
pub fn format_basename(name: &str, color: bool) -> (s: String)
    ensures
        s@ == basename_row(name@, color),
{
    if color {
        blue(name)
    } else {
        let mut out = String::new();
        push_str_chars(&mut out, name);
        assert(out@ =~= name@);
        out
    }
}

/// The entries of `a`, in order, whose relative path `b` lacks and whose
/// basename is `name`.
pub open spec fn side_rows(a: DirPairs, b: DirPairs, name: Seq<char>) -> DirPairs
    decreases a.len(),
{
    if a.len() == 0 {
        seq![]
    } else {
        let prev = side_rows(a.drop_last(), b, name);
        if !has_key(b, a.last().0) && basename_of(a.last().0) == name {
            prev.push(a.last())
        } else {
            prev
        }
    }
}

/// Whether some directory of one side only has the basename `name`.
pub open spec fn is_group_name(l: DirPairs, r: DirPairs, name: Seq<char>) -> bool {
    side_rows(l, r, name).len() > 0 || side_rows(r, l, name).len() > 0
}

/// Whether the strings of `q` increase strictly.
pub open spec fn names_sorted(q: Seq<Seq<char>>) -> bool {
    forall|a: int, b: int| 0 <= a < b < q.len() ==> str_lt(#[trigger] q[a], #[trigger] q[b])
}

/// The basenames of the directories found on one side only, each once, in
/// increasing order.
pub open spec fn group_names(l: DirPairs, r: DirPairs) -> Seq<Seq<char>> {
    choose|q: Seq<Seq<char>>|
        names_sorted(q) && forall|n: Seq<char>| #[trigger] q.contains(n) <==> is_group_name(l, r, n)
}

/// One row of the report: the side's letter, a space and the relative path,
/// linked to the full URI when hyperlinks are on.
pub open spec fn row_text(side: Side, entry: (Seq<char>, Seq<char>), opts: RenderOptions) -> Seq<char> {
    seq![side_letter(side), ' '] + if opts.hyperlink {
        osc8_text(entry.0, entry.1)
    } else {
        entry.0
    }
}

/// The rows of `rows`, each after a line break.
pub open spec fn rows_text(rows: DirPairs, side: Side, opts: RenderOptions) -> Seq<char>
    decreases rows.len(),
{
    if rows.len() == 0 {
        seq![]
    } else {
        rows_text(rows.drop_last(), side, opts) + seq!['\n'] + row_text(side, rows.last(), opts)
    }
}

/// The block of the group `name`: its heading, then its left rows in the
/// order of their relative paths, then its right rows likewise.
pub open spec fn block_text(name: Seq<char>, l: DirPairs, r: DirPairs, opts: RenderOptions) -> Seq<char> {
    basename_row(name, opts.color) + rows_text(side_rows(l, r, name), Side::Left, opts) + rows_text(
        side_rows(r, l, name),
        Side::Right,
        opts,
    )
}

/// The whole report: the blocks of the groups in increasing order of
/// basename, separated by blank lines.
pub open spec fn report_text(l: DirPairs, r: DirPairs, opts: RenderOptions) -> Seq<char> {
    join_with(
        group_names(l, r).map_values(|n: Seq<char>| block_text(n, l, r, opts)),
        seq!['\n', '\n'],
    )
}

pub proof fn lemma_side_rows_step(a: DirPairs, b: DirPairs, name: Seq<char>, i: int)
    requires
        0 <= i < a.len(),
    ensures
        side_rows(a.take(i + 1), b, name) == (if !has_key(b, a[i].0) && basename_of(a[i].0) == name {
            side_rows(a.take(i), b, name).push(a[i])
        } else {
            side_rows(a.take(i), b, name)
        }),
{
    assert(a.take(i + 1).drop_last() =~= a.take(i));
    assert(a.take(i + 1).last() == a[i]);
}

/// Two strictly increasing sequences of strings with the same members are
/// the same sequence.
pub proof fn lemma_sorted_names_unique(p: Seq<Seq<char>>, q: Seq<Seq<char>>)
    requires
        names_sorted(p),
        names_sorted(q),
        forall|n: Seq<char>| p.contains(n) <==> q.contains(n),
    ensures
        p == q,
    decreases p.len(),
{
    if p.len() == 0 {
        if q.len() > 0 {
            assert(q.contains(q[0]));
        }
        assert(p =~= q);
    } else {
        assert(p.contains(p[0]));
        assert(q.len() > 0);
        assert(q.contains(q[0]));
        let a = choose|k: int| 0 <= k < q.len() && q[k] == p[0];
        let b = choose|k: int| 0 <= k < p.len() && p[k] == q[0];
        if p[0] != q[0] {
            // p[0] <= p[b] = q[0] <= q[a] = p[0]
            assert(b > 0);
            assert(a > 0);
            assert(str_lt(p[0], p[b]));
            assert(str_lt(q[0], q[a]));
            lemma_str_lt_transitive(p[0], q[0], p[0]);
            lemma_str_lt_irreflexive(p[0]);
        }
        let p1 = p.drop_first();
        let q1 = q.drop_first();
        assert forall|n: Seq<char>| p1.contains(n) <==> q1.contains(n) by {
            if p1.contains(n) {
                let k = choose|k: int| 0 <= k < p1.len() && p1[k] == n;
                assert(p.contains(n)) by { assert(p[k + 1] == n); }
                let m = choose|m: int| 0 <= m < q.len() && q[m] == n;
                if m == 0 {
                    assert(str_lt(p[0], p[k + 1]));
                    lemma_str_lt_irreflexive(n);
                }
                assert(q1[m - 1] == n);
            }
            if q1.contains(n) {
                let k = choose|k: int| 0 <= k < q1.len() && q1[k] == n;
                assert(q.contains(n)) by { assert(q[k + 1] == n); }
                let m = choose|m: int| 0 <= m < p.len() && p[m] == n;
                if m == 0 {
                    assert(str_lt(q[0], q[k + 1]));
                    lemma_str_lt_irreflexive(n);
                }
                assert(p1[m - 1] == n);
            }
        }
        lemma_sorted_names_unique(p1, q1);
        assert(p =~= seq![p[0]] + p1);
        assert(q =~= seq![q[0]] + q1);
    }
}

/// A group under construction: its basename and the positions of its rows
/// on each side.
struct Group {
    name: Vec<char>,
    left: Vec<usize>,
    right: Vec<usize>,
}

/// The entries of `m` at the positions `idx`.
pub open spec fn pick(m: DirPairs, idx: Seq<usize>) -> DirPairs {
    idx.map_values(|k: usize| m[k as int])
}

/// The rows of `side` in group `g`.
spec fn idx_on(g: Group, side: Side) -> Seq<usize> {
    match side {
        Side::Left => g.left@,
        Side::Right => g.right@,
    }
}

/// The other side.
pub open spec fn other_side(side: Side) -> Side {
    match side {
        Side::Left => Side::Right,
        Side::Right => Side::Left,
    }
}

/// The groups after reading the first `ia` entries of `a`, the side `side`,
/// and the first `ib` entries of `b`, the other side.
spec fn side_inv(gs: Seq<Group>, side: Side, a: DirPairs, b: DirPairs, ia: int, ib: int) -> bool {
    &&& forall|a: int, b: int| 0 <= a < b < gs.len() ==> str_lt(#[trigger] gs[a].name@, #[trigger] gs[b].name@)
    &&& forall|g: int| 0 <= g < gs.len() ==> pick(a, #[trigger] idx_on(gs[g], side)) == side_rows(a.take(ia), b, gs[g].name@)
    &&& forall|g: int| 0 <= g < gs.len() ==> pick(b, #[trigger] idx_on(gs[g], other_side(side))) == side_rows(b.take(ib), a, gs[g].name@)
    &&& forall|g: int, k: int| 0 <= g < gs.len() && 0 <= k < idx_on(gs[g], side).len() ==> #[trigger] idx_on(gs[g], side)[k] < a.len()
    &&& forall|g: int, k: int| 0 <= g < gs.len() && 0 <= k < idx_on(gs[g], other_side(side)).len() ==> #[trigger] idx_on(gs[g], other_side(side))[k] < b.len()
    &&& forall|g: int| 0 <= g < gs.len() ==> (side_rows(a.take(ia), b, #[trigger] gs[g].name@).len() > 0
        || side_rows(b.take(ib), a, gs[g].name@).len() > 0)
    &&& forall|n: Seq<char>|
        #![trigger side_rows(a.take(ia), b, n)]
        #![trigger side_rows(b.take(ib), a, n)]
        (side_rows(a.take(ia), b, n).len() > 0 || side_rows(b.take(ib), a, n).len() > 0)
        ==> exists|g: int| 0 <= g < gs.len() && #[trigger] gs[g].name@ == n
}

spec fn groups_inv(gs: Seq<Group>, l: DirPairs, r: DirPairs, i: int, j: int) -> bool {
    side_inv(gs, Side::Left, l, r, i, j)
}

proof fn lemma_side_inv_swap(gs: Seq<Group>, a: DirPairs, b: DirPairs, ia: int, ib: int)
    ensures
        side_inv(gs, Side::Left, a, b, ia, ib) == side_inv(gs, Side::Right, b, a, ib, ia),
{
}

impl Group {
    /// Adds the row at `idx` to `side`.
    fn push_on(&mut self, side: Side, idx: usize)
        ensures
            final(self).name == old(self).name,
            idx_on(*final(self), side) == idx_on(*old(self), side).push(idx),
            idx_on(*final(self), other_side(side)) == idx_on(*old(self), other_side(side)),
    {
        match side {
            Side::Left => self.left.push(idx),
            Side::Right => self.right.push(idx),
        }
    }

    /// A new group with one row, at `idx` on `side`.
    fn fresh(name: Vec<char>, side: Side, idx: usize) -> (g: Group)
        ensures
            g.name == name,
            idx_on(g, side) == seq![idx],
            idx_on(g, other_side(side)) == Seq::<usize>::empty(),
    {
        let mut rows: Vec<usize> = Vec::new();
        rows.push(idx);
        let g = match side {
            Side::Left => Group { name, left: rows, right: Vec::new() },
            Side::Right => Group { name, left: Vec::new(), right: rows },
        };
        assert(idx_on(g, side) =~= seq![idx]);
        assert(idx_on(g, other_side(side)) =~= Seq::<usize>::empty());
        g
    }
}

/// Where the group `name` stands, or would stand, among the groups.
fn find_group(groups: &Vec<Group>, name: &Vec<char>) -> (r: (bool, usize))
    requires
        forall|a: int, b: int| 0 <= a < b < groups@.len() ==> str_lt(#[trigger] groups@[a].name@, #[trigger] groups@[b].name@),
    ensures
        r.1 <= groups@.len(),
        forall|a: int| 0 <= a < r.1 ==> str_lt(#[trigger] groups@[a].name@, name@),
        forall|a: int| r.1 <= a < groups@.len() ==> str_lt(name@, #[trigger] groups@[a].name@) || groups@[a].name@ == name@,
        r.0 ==> r.1 < groups@.len() && groups@[r.1 as int].name@ == name@,
        !r.0 ==> forall|a: int| 0 <= a < groups@.len() ==> #[trigger] groups@[a].name@ != name@,
{
    let mut lo: usize = 0;
    let mut hi: usize = groups.len();
    while lo < hi
        invariant
            lo <= hi <= groups@.len(),
            forall|a: int, b: int| 0 <= a < b < groups@.len() ==> str_lt(#[trigger] groups@[a].name@, #[trigger] groups@[b].name@),
            forall|a: int| 0 <= a < lo ==> str_lt(#[trigger] groups@[a].name@, name@),
            forall|a: int| hi <= a < groups@.len() ==> !str_lt(#[trigger] groups@[a].name@, name@),
        decreases hi - lo,
    {
        let mid = lo + (hi - lo) / 2;
        if chars_lt(&groups[mid].name, name) {
            assert forall|a: int| 0 <= a < mid + 1 implies str_lt(#[trigger] groups@[a].name@, name@) by {
                if a < mid {
                    lemma_str_lt_transitive(groups@[a].name@, groups@[mid as int].name@, name@);
                }
            }
            lo = mid + 1;
        } else {
            assert forall|a: int| mid <= a < groups@.len() implies !str_lt(#[trigger] groups@[a].name@, name@) by {
                if a > mid && str_lt(groups@[a].name@, name@) {
                    lemma_str_lt_transitive(groups@[mid as int].name@, groups@[a].name@, name@);
                }
            }
            hi = mid;
        }
    }
    assert forall|a: int| lo <= a < groups@.len() implies str_lt(name@, #[trigger] groups@[a].name@) || groups@[a].name@ == name@ by {
        lemma_str_lt_total(name@, groups@[a].name@);
    }
    let found = lo < groups.len() && !chars_lt(name, &groups[lo].name);
    proof {
        if !found {
            assert forall|a: int| 0 <= a < groups@.len() implies #[trigger] groups@[a].name@ != name@ by {
                lemma_str_lt_irreflexive(name@);
                if a > lo as int && groups@[a].name@ == name@ {
                    assert(str_lt(groups@[lo as int].name@, groups@[a].name@));
                    lemma_str_lt_transitive(name@, groups@[lo as int].name@, name@);
                }
            }
        } else {
            lemma_str_lt_total(name@, groups@[lo as int].name@);
        }
    }
    (found, lo)
}

proof fn lemma_pick_push(m: DirPairs, idx: Seq<usize>, k: usize)
    ensures
        pick(m, idx.push(k)) == pick(m, idx).push(m[k as int]),
{
    assert(pick(m, idx.push(k)) =~= pick(m, idx).push(m[k as int]));
}

/// A directory of `side` that the other side lacks joins the group of its
/// basename.
fn add_row(groups: &mut Vec<Group>, name: Vec<char>, idx: usize, side: Side, Ghost(a): Ghost<DirPairs>,
    Ghost(b): Ghost<DirPairs>, Ghost(ib): Ghost<int>)
    requires
        side_inv(old(groups)@, side, a, b, idx as int, ib),
        idx < a.len(),
        !has_key(b, a[idx as int].0),
        basename_of(a[idx as int].0) == name@,
    ensures
        side_inv(final(groups)@, side, a, b, idx + 1, ib),
{
    let ghost ia = idx as int;
    let ghost old_g = groups@;
    proof {
        assert forall|n: Seq<char>| #[trigger] side_rows(a.take(ia + 1), b, n) == (if n == name@ {
            side_rows(a.take(ia), b, n).push(a[ia])
        } else {
            side_rows(a.take(ia), b, n)
        }) by {
            lemma_side_rows_step(a, b, n, ia);
        }
    }
    let (found, pos) = find_group(groups, &name);
    if found {
        groups[pos].push_on(side, idx);
        proof {
            let ng = groups@;
            assert(ng.len() == old_g.len());
            assert forall|g: int| 0 <= g < ng.len() && g != pos implies #[trigger] ng[g] == old_g[g] by {}
            assert(ng[pos as int].name@ == name@);
            assert(idx_on(ng[pos as int], other_side(side)) == idx_on(old_g[pos as int], other_side(side)));
            assert(idx_on(ng[pos as int], side) == idx_on(old_g[pos as int], side).push(idx));
            lemma_pick_push(a, idx_on(old_g[pos as int], side), idx);
            assert forall|g: int| 0 <= g < ng.len() implies pick(a, #[trigger] idx_on(ng[g], side)) == side_rows(a.take(ia + 1), b, ng[g].name@) by {
                if g != pos {
                    lemma_str_lt_irreflexive(name@);
                    if g < pos {
                        assert(str_lt(old_g[g].name@, old_g[pos as int].name@));
                    } else {
                        assert(str_lt(old_g[pos as int].name@, old_g[g].name@));
                    }
                    assert(old_g[g].name@ != name@);
                }
            }
            assert forall|g: int, k: int| 0 <= g < ng.len() && 0 <= k < idx_on(ng[g], side).len() implies #[trigger] idx_on(ng[g], side)[k] < a.len() by {
                if g == pos && k < idx_on(old_g[g], side).len() {
                    assert(idx_on(ng[g], side)[k] == idx_on(old_g[g], side)[k]);
                }
            }
            assert forall|g: int| 0 <= g < ng.len() implies (side_rows(a.take(ia + 1), b, #[trigger] ng[g].name@).len() > 0
                || side_rows(b.take(ib), a, ng[g].name@).len() > 0) by {
                assert(ng[g].name@ == old_g[g].name@);
                if ng[g].name@ != name@ {
                    assert(side_rows(a.take(ia), b, old_g[g].name@).len() > 0 || side_rows(b.take(ib), a, old_g[g].name@).len() > 0);
                }
            }
            assert forall|n: Seq<char>|
                #![trigger side_rows(a.take(ia + 1), b, n)]
                #![trigger side_rows(b.take(ib), a, n)]
                (side_rows(a.take(ia + 1), b, n).len() > 0 || side_rows(b.take(ib), a, n).len() > 0)
                implies exists|g: int| 0 <= g < ng.len() && #[trigger] ng[g].name@ == n by {
                if n == name@ {
                    assert(ng[pos as int].name@ == n);
                } else {
                    assert(side_rows(a.take(ia), b, n).len() > 0 || side_rows(b.take(ib), a, n).len() > 0);
                    let g = choose|g: int| 0 <= g < old_g.len() && #[trigger] old_g[g].name@ == n;
                    assert(ng[g].name@ == n);
                }
            }
        }
    } else {
        let fresh = Group::fresh(name, side, idx);
        proof {
            // No group had this basename, so it had no rows yet.
            if side_rows(a.take(ia), b, fresh.name@).len() > 0 || side_rows(b.take(ib), a, fresh.name@).len() > 0 {
                let g = choose|g: int| 0 <= g < old_g.len() && #[trigger] old_g[g].name@ == fresh.name@;
                assert(old_g[g].name@ != name@);
                assert(false);
            }
            assert(side_rows(a.take(ia), b, fresh.name@) =~= Seq::<(Seq<char>, Seq<char>)>::empty());
            assert(side_rows(b.take(ib), a, fresh.name@) =~= Seq::<(Seq<char>, Seq<char>)>::empty());
            assert(pick(a, idx_on(fresh, side)) =~= seq![a[ia]]);
            assert(pick(b, idx_on(fresh, other_side(side))) =~= Seq::<(Seq<char>, Seq<char>)>::empty());
        }
        let ghost fname = fresh.name@;
        groups.insert(pos, fresh);
        proof {
            let ng = groups@;
            assert(ng.len() == old_g.len() + 1);
            assert(ng[pos as int].name@ == fname);
            assert forall|g: int| 0 <= g < pos implies #[trigger] ng[g] == old_g[g] by {}
            assert forall|g: int| pos < g < ng.len() implies #[trigger] ng[g] == old_g[g - 1] by {}
            assert forall|a: int, b: int| 0 <= a < b < ng.len() implies str_lt(#[trigger] ng[a].name@, #[trigger] ng[b].name@) by {
                if b < pos {
                } else if b == pos {
                    assert(str_lt(old_g[a].name@, fname));
                } else if a < pos {
                    assert(str_lt(old_g[a].name@, fname));
                    assert(str_lt(fname, old_g[b - 1].name@));
                    lemma_str_lt_transitive(old_g[a].name@, fname, old_g[b - 1].name@);
                } else if a == pos {
                    assert(str_lt(fname, old_g[b - 1].name@) || old_g[b - 1].name@ == fname);
                } else {
                    assert(str_lt(old_g[a - 1].name@, old_g[b - 1].name@));
                }
            }
            assert forall|g: int| 0 <= g < ng.len() implies pick(a, #[trigger] idx_on(ng[g], side)) == side_rows(a.take(ia + 1), b, ng[g].name@) by {
                if g < pos {
                    assert(old_g[g].name@ != fname);
                } else if g > pos {
                    assert(old_g[g - 1].name@ != fname);
                } else {
                    assert(Seq::<(Seq<char>, Seq<char>)>::empty().push(a[ia]) =~= seq![a[ia]]);
                }
            }
            assert forall|g: int| 0 <= g < ng.len() implies pick(b, #[trigger] idx_on(ng[g], other_side(side))) == side_rows(b.take(ib), a, ng[g].name@) by {
                if g < pos {
                } else if g > pos {
                }
            }
            assert forall|g: int, k: int| 0 <= g < ng.len() && 0 <= k < idx_on(ng[g], side).len() implies #[trigger] idx_on(ng[g], side)[k] < a.len() by {
                if g < pos {
                    assert(idx_on(ng[g], side)[k] == idx_on(old_g[g], side)[k]);
                } else if g > pos {
                    assert(idx_on(ng[g], side)[k] == idx_on(old_g[g - 1], side)[k]);
                }
            }
            assert forall|g: int, k: int| 0 <= g < ng.len() && 0 <= k < idx_on(ng[g], other_side(side)).len() implies #[trigger] idx_on(ng[g], other_side(side))[k] < b.len() by {
                if g < pos {
                    assert(idx_on(ng[g], other_side(side))[k] == idx_on(old_g[g], other_side(side))[k]);
                } else if g > pos {
                    assert(idx_on(ng[g], other_side(side))[k] == idx_on(old_g[g - 1], other_side(side))[k]);
                }
            }
            assert forall|g: int| 0 <= g < ng.len() implies (side_rows(a.take(ia + 1), b, #[trigger] ng[g].name@).len() > 0
                || side_rows(b.take(ib), a, ng[g].name@).len() > 0) by {
                if g < pos {
                    assert(old_g[g].name@ != fname);
                    assert(side_rows(a.take(ia), b, old_g[g].name@).len() > 0 || side_rows(b.take(ib), a, old_g[g].name@).len() > 0);
                } else if g > pos {
                    assert(old_g[g - 1].name@ != fname);
                    assert(side_rows(a.take(ia), b, old_g[g - 1].name@).len() > 0 || side_rows(b.take(ib), a, old_g[g - 1].name@).len() > 0);
                }
            }
            assert forall|n: Seq<char>|
                #![trigger side_rows(a.take(ia + 1), b, n)]
                #![trigger side_rows(b.take(ib), a, n)]
                (side_rows(a.take(ia + 1), b, n).len() > 0 || side_rows(b.take(ib), a, n).len() > 0)
                implies exists|g: int| 0 <= g < ng.len() && #[trigger] ng[g].name@ == n by {
                if n == fname {
                    assert(ng[pos as int].name@ == n);
                } else {
                    assert(side_rows(a.take(ia), b, n).len() > 0 || side_rows(b.take(ib), a, n).len() > 0);
                    let g = choose|g: int| 0 <= g < old_g.len() && #[trigger] old_g[g].name@ == n;
                    if g < pos {
                        assert(ng[g].name@ == n);
                    } else {
                        assert(ng[g + 1].name@ == n);
                    }
                }
            }
        }
    }
}

proof fn lemma_inv_skip(gs: Seq<Group>, side: Side, a: DirPairs, b: DirPairs, ia: int, ib: int)
    requires
        side_inv(gs, side, a, b, ia, ib),
        0 <= ia < a.len(),
        has_key(b, a[ia].0),
    ensures
        side_inv(gs, side, a, b, ia + 1, ib),
{
    assert forall|n: Seq<char>| #[trigger] side_rows(a.take(ia + 1), b, n) == side_rows(a.take(ia), b, n) by {
        lemma_side_rows_step(a, b, n, ia);
    }
}

proof fn lemma_inv_start(l: DirPairs, r: DirPairs)
    ensures
        groups_inv(Seq::empty(), l, r, 0, 0),
{
    assert(l.take(0) =~= Seq::<(Seq<char>, Seq<char>)>::empty());
    assert(r.take(0) =~= Seq::<(Seq<char>, Seq<char>)>::empty());
}

/// The basenames of the groups, in order.
spec fn names_of(gs: Seq<Group>) -> Seq<Seq<char>> {
    gs.map_values(|g: Group| g.name@)
}

proof fn lemma_names_are_group_names(gs: Seq<Group>, l: DirPairs, r: DirPairs)
    requires
        groups_inv(gs, l, r, l.len() as int, r.len() as int),
    ensures
        names_of(gs) == group_names(l, r),
{
    assert(l.take(l.len() as int) =~= l);
    assert(r.take(r.len() as int) =~= r);
    let q = names_of(gs);
    assert(names_sorted(q)) by {
        assert forall|a: int, b: int| 0 <= a < b < q.len() implies str_lt(#[trigger] q[a], #[trigger] q[b]) by {
            assert(str_lt(gs[a].name@, gs[b].name@));
        }
    }
    assert forall|n: Seq<char>| #[trigger] q.contains(n) <==> is_group_name(l, r, n) by {
        if q.contains(n) {
            let g = choose|g: int| 0 <= g < q.len() && q[g] == n;
            assert(gs[g].name@ == n);
        }
        if is_group_name(l, r, n) {
            assert(side_rows(l.take(l.len() as int), r, n).len() > 0 || side_rows(r.take(r.len() as int), l, n).len() > 0);
            let g = choose|g: int| 0 <= g < gs.len() && #[trigger] gs[g].name@ == n;
            assert(q[g] == n);
        }
    }
    let c = group_names(l, r);
    assert(names_sorted(c) && forall|n: Seq<char>| #[trigger] c.contains(n) <==> is_group_name(l, r, n));
    lemma_sorted_names_unique(q, c);
}

/// Appends a line break and the row of `side` for the entry `(rel, full)`.
fn push_row(out: &mut String, side: Side, rel: &Vec<char>, full: &String, opts: RenderOptions)
    ensures
        final(out)@ == old(out)@ + seq!['\n'] + row_text(side, (rel@, full@), opts),
{
    let ghost start = out@;
    push_char(out, '\n');
    match side {
        Side::Left => push_char(out, 'L'),
        Side::Right => push_char(out, 'R'),
    }
    push_char(out, ' ');
    if opts.hyperlink {
        push_osc8(out, rel, &chars_of(full.as_str()));
    } else {
        push_chars(out, rel);
    }
    assert(out@ =~= start + seq!['\n'] + row_text(side, (rel@, full@), opts));
}

/// Appends the rows of `m` at positions `idx`.
fn push_rows(out: &mut String, m: &DirMap, idx: &Vec<usize>, side: Side, opts: RenderOptions)
    requires
        forall|k: int| 0 <= k < idx@.len() ==> #[trigger] idx@[k] < m@.len(),
    ensures
        final(out)@ == old(out)@ + rows_text(pick(m@, idx@), side, opts),
{
    let ghost start = out@;
    assert(pick(m@, idx@.take(0)) =~= Seq::<(Seq<char>, Seq<char>)>::empty());
    for k in 0..idx.len()
        invariant
            forall|k: int| 0 <= k < idx@.len() ==> #[trigger] idx@[k] < m@.len(),
            out@ == start + rows_text(pick(m@, idx@.take(k as int)), side, opts),
    {
        let e = idx[k];
        assert(idx@[k as int] < m@.len());
        push_row(out, side, m.rel_at(e), m.full_at(e), opts);
        proof {
            assert(idx@.take(k + 1) =~= idx@.take(k as int).push(e));
            lemma_pick_push(m@, idx@.take(k as int), e);
            let p = pick(m@, idx@.take(k + 1));
            assert(p.drop_last() =~= pick(m@, idx@.take(k as int)));
            assert(p.last() == m@[e as int]);
        }
    }
    assert(idx@.take(idx@.len() as int) =~= idx@);
}

/// Renders the directories present on one side only: one block per
/// basename, in increasing order of basename and separated by blank lines;
/// each block is the basename, blue when `options.color` is set, then one row
/// per directory, `L` rows before `R` rows and each side in the order of the
/// relative paths; a row's relative path links to its full URI when
/// `options.hyperlink` is set. Directories present on both sides are left
/// out, so the report is empty when both sides hold the same paths.
pub fn render_report(left_dirs: &DirMap, right_dirs: &DirMap, options: RenderOptions) -> (report: String)
    ensures
        report@ == report_text(left_dirs@, right_dirs@, options),
{
    let ghost l = left_dirs@;
    let ghost r = right_dirs@;
    let mut groups: Vec<Group> = Vec::new();
    proof {
        lemma_inv_start(l, r);
        assert(groups@ =~= Seq::<Group>::empty());
    }
    let nl = left_dirs.len();
    let nr = right_dirs.len();
    for i in 0..nl
        invariant
            nl == l.len(),
            l == left_dirs@,
            r == right_dirs@,
            groups_inv(groups@, l, r, i as int, 0),
    {
        let rel = left_dirs.rel_at(i);
        if !right_dirs.contains_chars(rel) {
            let name = basename_chars(rel);
            add_row(&mut groups, name, i, Side::Left, Ghost(l), Ghost(r), Ghost(0int));
        } else {
            proof { lemma_inv_skip(groups@, Side::Left, l, r, i as int, 0); }
        }
    }
    for j in 0..nr
        invariant
            nr == r.len(),
            l == left_dirs@,
            r == right_dirs@,
            groups_inv(groups@, l, r, l.len() as int, j as int),
    {
        let rel = right_dirs.rel_at(j);
        if !left_dirs.contains_chars(rel) {
            let name = basename_chars(rel);
            proof { lemma_side_inv_swap(groups@, l, r, l.len() as int, j as int); }
            add_row(&mut groups, name, j, Side::Right, Ghost(r), Ghost(l), Ghost(l.len() as int));
            proof { lemma_side_inv_swap(groups@, l, r, l.len() as int, j + 1); }
        } else {
            proof {
                lemma_side_inv_swap(groups@, l, r, l.len() as int, j as int);
                lemma_inv_skip(groups@, Side::Right, r, l, j as int, l.len() as int);
                lemma_side_inv_swap(groups@, l, r, l.len() as int, j + 1);
            }
        }
    }
    proof {
        lemma_names_are_group_names(groups@, l, r);
        assert(l.take(l.len() as int) =~= l);
        assert(r.take(r.len() as int) =~= r);
    }
    let ghost blocks = group_names(l, r).map_values(|n: Seq<char>| block_text(n, l, r, options));
    let mut out = String::new();
    assert(blocks.take(0) =~= Seq::<Seq<char>>::empty());
    for g in 0..groups.len()
        invariant
            l == left_dirs@,
            r == right_dirs@,
            groups_inv(groups@, l, r, l.len() as int, r.len() as int),
            names_of(groups@) == group_names(l, r),
            l.take(l.len() as int) == l,
            r.take(r.len() as int) == r,
            blocks == group_names(l, r).map_values(|n: Seq<char>| block_text(n, l, r, options)),
            blocks.len() == groups@.len(),
            out@ == join_with(blocks.take(g as int), seq!['\n', '\n']),
    {
        let ghost before = out@;
        let group = &groups[g];
        let ghost name = group.name@;
        if g > 0 {
            push_char(&mut out, '\n');
            push_char(&mut out, '\n');
        }
        let ghost mid = out@;
        if options.color {
            push_blue(&mut out, &group.name);
        } else {
            push_chars(&mut out, &group.name);
        }
        assert(idx_on(groups@[g as int], Side::Left) == group.left@);
        assert(idx_on(groups@[g as int], other_side(Side::Left)) == group.right@);
        push_rows(&mut out, left_dirs, &group.left, Side::Left, options);
        push_rows(&mut out, right_dirs, &group.right, Side::Right, options);
        proof {
            assert(names_of(groups@)[g as int] == name);
            assert(pick(l, group.left@) == side_rows(l, r, name));
            assert(pick(r, group.right@) == side_rows(r, l, name));
            assert(blocks[g as int] == block_text(name, l, r, options));
            assert(out@ =~= mid + block_text(name, l, r, options));
            assert(blocks.take(g + 1).drop_last() =~= blocks.take(g as int));
            if g == 0 {
                assert(blocks.take(1) =~= seq![blocks[0]]);
            }
        }
    }
    assert(blocks.take(groups@.len() as int) =~= blocks);
    out
}

proof fn lemma_sorted_insert(q: Seq<Seq<char>>, x: Seq<char>)
    requires
        names_sorted(q),
        !q.contains(x),
    ensures
        exists|q2: Seq<Seq<char>>| names_sorted(q2) && forall|n: Seq<char>| #[trigger] q2.contains(n) <==> (q.contains(n) || n == x),
    decreases q.len(),
{
    if q.len() == 0 {
        let q2 = seq![x];
        assert forall|n: Seq<char>| #[trigger] q2.contains(n) <==> (q.contains(n) || n == x) by {
            if q2.contains(n) {
                let k = choose|k: int| 0 <= k < q2.len() && q2[k] == n;
            }
            if n == x {
                assert(q2[0] == x);
            }
        }
        assert(names_sorted(q2));
    } else {
        lemma_str_lt_total(x, q[0]);
        if str_lt(x, q[0]) {
            let q2 = seq![x] + q;
            assert(names_sorted(q2)) by {
                assert forall|a: int, b: int| 0 <= a < b < q2.len() implies str_lt(#[trigger] q2[a], #[trigger] q2[b]) by {
                    if a == 0 {
                        if b > 1 {
                            assert(str_lt(q[0], q[b - 1]));
                            lemma_str_lt_transitive(x, q[0], q[b - 1]);
                        }
                    } else {
                        assert(str_lt(q[a - 1], q[b - 1]));
                    }
                }
            }
            assert forall|n: Seq<char>| #[trigger] q2.contains(n) <==> (q.contains(n) || n == x) by {
                if q2.contains(n) {
                    let k = choose|k: int| 0 <= k < q2.len() && q2[k] == n;
                    if k > 0 {
                        assert(q[k - 1] == n);
                    }
                }
                if q.contains(n) {
                    let k = choose|k: int| 0 <= k < q.len() && q[k] == n;
                    assert(q2[k + 1] == n);
                }
                if n == x {
                    assert(q2[0] == x);
                }
            }
        } else {
            assert(q.contains(q[0]));
            let rest = q.drop_first();
            assert(names_sorted(rest)) by {
                assert forall|a: int, b: int| 0 <= a < b < rest.len() implies str_lt(#[trigger] rest[a], #[trigger] rest[b]) by {
                    assert(str_lt(q[a + 1], q[b + 1]));
                }
            }
            assert(!rest.contains(x)) by {
                if rest.contains(x) {
                    let k = choose|k: int| 0 <= k < rest.len() && rest[k] == x;
                    assert(q[k + 1] == x);
                }
            }
            lemma_sorted_insert(rest, x);
            let r2 = choose|q2: Seq<Seq<char>>| names_sorted(q2) && forall|n: Seq<char>| #[trigger] q2.contains(n) <==> (rest.contains(n) || n == x);
            let q2 = seq![q[0]] + r2;
            assert(names_sorted(q2)) by {
                assert forall|a: int, b: int| 0 <= a < b < q2.len() implies str_lt(#[trigger] q2[a], #[trigger] q2[b]) by {
                    if a == 0 {
                        let y = r2[b - 1];
                        assert(r2.contains(y));
                        if y == x {
                        } else {
                            let k = choose|k: int| 0 <= k < rest.len() && rest[k] == y;
                            assert(str_lt(q[0], q[k + 1]));
                        }
                    } else {
                        assert(str_lt(r2[a - 1], r2[b - 1]));
                    }
                }
            }
            assert forall|n: Seq<char>| #[trigger] q2.contains(n) <==> (q.contains(n) || n == x) by {
                if q2.contains(n) {
                    let k = choose|k: int| 0 <= k < q2.len() && q2[k] == n;
                    if k > 0 {
                        assert(r2.contains(n)) by { assert(r2[k - 1] == n); }
                        if n != x {
                            let m = choose|m: int| 0 <= m < rest.len() && rest[m] == n;
                            assert(q[m + 1] == n);
                        }
                    }
                }
                if q.contains(n) {
                    let k = choose|k: int| 0 <= k < q.len() && q[k] == n;
                    if k == 0 {
                        assert(q2[0] == n);
                    } else {
                        assert(rest[k - 1] == n);
                        assert(rest.contains(n));
                        assert(r2.contains(n));
                        let m = choose|m: int| 0 <= m < r2.len() && r2[m] == n;
                        assert(q2[m + 1] == n);
                    }
                }
                if n == x {
                    assert(r2.contains(x));
                    let m = choose|m: int| 0 <= m < r2.len() && r2[m] == x;
                    assert(q2[m + 1] == x);
                }
            }
        }
    }
}

/// The rows of a side in the group `name` are exactly the directories of
/// that side that the other side lacks and whose basename is `name`: a
/// directory present on both sides never shows, and every other one shows
/// under its basename.
pub proof fn law_group_rows_are_one_sided(a: DirPairs, b: DirPairs, name: Seq<char>)
    ensures
        forall|e: (Seq<char>, Seq<char>)| #[trigger] side_rows(a, b, name).contains(e) <==> (
            a.contains(e) && !has_key(b, e.0) && basename_of(e.0) == name),
    decreases a.len(),
{
    if a.len() > 0 {
        let d = a.drop_last();
        law_group_rows_are_one_sided(d, b, name);
        assert forall|e: (Seq<char>, Seq<char>)| #[trigger] side_rows(a, b, name).contains(e) <==> (
            a.contains(e) && !has_key(b, e.0) && basename_of(e.0) == name) by {
            let prev = side_rows(d, b, name);
            if a.contains(e) {
                let k = choose|k: int| 0 <= k < a.len() && a[k] == e;
                if k < a.len() - 1 {
                    assert(d[k] == e);
                    assert(d.contains(e));
                }
            }
            if d.contains(e) {
                let k = choose|k: int| 0 <= k < d.len() && d[k] == e;
                assert(a[k] == e);
            }
            if !has_key(b, a.last().0) && basename_of(a.last().0) == name {
                if prev.push(a.last()).contains(e) {
                    let k = choose|k: int| 0 <= k < prev.len() + 1 && prev.push(a.last())[k] == e;
                    if k < prev.len() {
                        assert(prev[k] == e);
                        assert(prev.contains(e));
                    }
                }
                if prev.contains(e) {
                    let k = choose|k: int| 0 <= k < prev.len() && prev[k] == e;
                    assert(prev.push(a.last())[k] == e);
                }
                if e == a.last() {
                    assert(prev.push(a.last())[prev.len() as int] == e);
                }
            }
        }
    }
}

/// For every pair of sides there is an increasing sequence of the group
/// basenames: `group_names` picks it.
pub proof fn lemma_group_names_exist(l: DirPairs, r: DirPairs)
    ensures
        names_sorted(group_names(l, r)),
        forall|n: Seq<char>| #[trigger] group_names(l, r).contains(n) <==> is_group_name(l, r, n),
{
    let cands = l.map_values(|e: (Seq<char>, Seq<char>)| basename_of(e.0)) + r.map_values(|e: (Seq<char>, Seq<char>)| basename_of(e.0));
    lemma_names_from_candidates(l, r, cands);
    assert forall|n: Seq<char>| is_group_name(l, r, n) implies #[trigger] cands.contains(n) by {
        law_group_rows_are_one_sided(l, r, n);
        law_group_rows_are_one_sided(r, l, n);
        if side_rows(l, r, n).len() > 0 {
            assert(side_rows(l, r, n).contains(side_rows(l, r, n)[0]));
            let e = side_rows(l, r, n)[0];
            let k = choose|k: int| 0 <= k < l.len() && l[k] == e;
            assert(cands[k] == n);
        } else {
            assert(side_rows(r, l, n).contains(side_rows(r, l, n)[0]));
            let e = side_rows(r, l, n)[0];
            let k = choose|k: int| 0 <= k < r.len() && r[k] == e;
            assert(cands[l.len() + k] == n);
        }
    }
    let w = choose|q: Seq<Seq<char>>| names_sorted(q) && forall|n: Seq<char>| #[trigger] q.contains(n) <==> (cands.contains(n) && is_group_name(l, r, n));
    assert(names_sorted(w) && forall|n: Seq<char>| #[trigger] w.contains(n) <==> is_group_name(l, r, n));
}

proof fn lemma_names_from_candidates(l: DirPairs, r: DirPairs, cands: Seq<Seq<char>>)
    ensures
        exists|q: Seq<Seq<char>>| names_sorted(q) && forall|n: Seq<char>| #[trigger] q.contains(n) <==> (cands.contains(n) && is_group_name(l, r, n)),
    decreases cands.len(),
{
    if cands.len() == 0 {
        let q = Seq::<Seq<char>>::empty();
        assert(names_sorted(q) && forall|n: Seq<char>| #[trigger] q.contains(n) <==> (cands.contains(n) && is_group_name(l, r, n)));
    } else {
        let d = cands.drop_last();
        let x = cands.last();
        lemma_names_from_candidates(l, r, d);
        let q = choose|q: Seq<Seq<char>>| names_sorted(q) && forall|n: Seq<char>| #[trigger] q.contains(n) <==> (d.contains(n) && is_group_name(l, r, n));
        assert forall|n: Seq<char>| cands.contains(n) <==> (d.contains(n) || n == x) by {
            if cands.contains(n) {
                let k = choose|k: int| 0 <= k < cands.len() && cands[k] == n;
                if k < d.len() {
                    assert(d[k] == n);
                }
            }
            if d.contains(n) {
                let k = choose|k: int| 0 <= k < d.len() && d[k] == n;
                assert(cands[k] == n);
            }
            if n == x {
                assert(cands[cands.len() - 1] == n);
            }
        }
        if is_group_name(l, r, x) && !q.contains(x) {
            lemma_sorted_insert(q, x);
            let q2 = choose|q2: Seq<Seq<char>>| names_sorted(q2) && forall|n: Seq<char>| #[trigger] q2.contains(n) <==> (q.contains(n) || n == x);
            assert(forall|n: Seq<char>| #[trigger] q2.contains(n) <==> (cands.contains(n) && is_group_name(l, r, n)));
        } else {
            assert(forall|n: Seq<char>| #[trigger] q.contains(n) <==> (cands.contains(n) && is_group_name(l, r, n)));
        }
    }
}

proof fn lemma_join_with_last(s: Seq<Seq<char>>, sep: Seq<char>)
    requires
        s.len() > 0,
    ensures
        join_with(s, sep).len() >= s.last().len(),
{
}

proof fn lemma_rows_text_nonempty(rows: DirPairs, side: Side, opts: RenderOptions)
    requires
        rows.len() > 0,
    ensures
        rows_text(rows, side, opts).len() > 0,
{
}

/// The report is empty exactly when both sides hold the same relative
/// paths: identical trees print nothing, and any directory present on one
/// side only is reported.
pub proof fn law_report_empty_iff_same_paths(l: DirPairs, r: DirPairs, opts: RenderOptions)
    ensures
        report_text(l, r, opts).len() == 0 <==> forall|k: Seq<char>| has_key(l, k) <==> has_key(r, k),
{
    lemma_group_names_exist(l, r);
    let names = group_names(l, r);
    let blocks = names.map_values(|n: Seq<char>| block_text(n, l, r, opts));
    if forall|k: Seq<char>| has_key(l, k) <==> has_key(r, k) {
        if names.len() > 0 {
            let n = names[0];
            assert(names.contains(n));
            law_group_rows_are_one_sided(l, r, n);
            law_group_rows_are_one_sided(r, l, n);
            if side_rows(l, r, n).len() > 0 {
                let e = side_rows(l, r, n)[0];
                assert(side_rows(l, r, n).contains(e));
                let k = choose|k: int| 0 <= k < l.len() && l[k] == e;
                assert(has_key(l, e.0));
            } else {
                let e = side_rows(r, l, n)[0];
                assert(side_rows(r, l, n).contains(e));
                let k = choose|k: int| 0 <= k < r.len() && r[k] == e;
                assert(has_key(r, e.0));
            }
        }
        assert(blocks =~= Seq::<Seq<char>>::empty());
    } else {
        let k = choose|k: Seq<char>| !(has_key(l, k) <==> has_key(r, k));
        let n = basename_of(k);
        law_group_rows_are_one_sided(l, r, n);
        law_group_rows_are_one_sided(r, l, n);
        if has_key(l, k) {
            let i = choose|i: int| 0 <= i < l.len() && #[trigger] l[i].0 == k;
            assert(l.contains(l[i]));
            assert(side_rows(l, r, n).contains(l[i]));
        } else {
            let i = choose|i: int| 0 <= i < r.len() && #[trigger] r[i].0 == k;
            assert(r.contains(r[i]));
            assert(side_rows(r, l, n).contains(r[i]));
        }
        assert(is_group_name(l, r, n));
        assert(names.contains(n));
        let last = names.last();
        assert(names.contains(last));
        assert(is_group_name(l, r, last));
        if side_rows(l, r, last).len() > 0 {
            lemma_rows_text_nonempty(side_rows(l, r, last), Side::Left, opts);
        } else {
            lemma_rows_text_nonempty(side_rows(r, l, last), Side::Right, opts);
        }
        assert(blocks.last() == block_text(last, l, r, opts));
        lemma_join_with_last(blocks, seq!['\n', '\n']);
    }
}

/// Within a group, the rows of each side follow the order of their
/// relative paths.
pub proof fn law_group_rows_sorted(a: DirPairs, b: DirPairs, name: Seq<char>)
    requires
        keys_sorted(a),
    ensures
        keys_sorted(side_rows(a, b, name)),
    decreases a.len(),
{
    if a.len() > 0 {
        let d = a.drop_last();
        assert(keys_sorted(d)) by {
            assert forall|i: int, j: int| 0 <= i < j < d.len() implies str_lt(#[trigger] d[i].0, #[trigger] d[j].0) by {
                assert(str_lt(a[i].0, a[j].0));
            }
        }
        law_group_rows_sorted(d, b, name);
        let prev = side_rows(d, b, name);
        if !has_key(b, a.last().0) && basename_of(a.last().0) == name {
            law_group_rows_are_one_sided(d, b, name);
            let s = prev.push(a.last());
            assert forall|i: int, j: int| 0 <= i < j < s.len() implies str_lt(#[trigger] s[i].0, #[trigger] s[j].0) by {
                if j == prev.len() {
                    assert(prev.contains(prev[i]));
                    let k = choose|k: int| 0 <= k < d.len() && d[k] == prev[i];
                    assert(str_lt(a[k].0, a[a.len() - 1].0));
                } else {
                    assert(str_lt(prev[i].0, prev[j].0));
                }
            }
        }
    }
}

proof fn lemma_group_names_equal(l1: DirPairs, r1: DirPairs, l2: DirPairs, r2: DirPairs)
    requires
        forall|n: Seq<char>| is_group_name(l1, r1, n) <==> is_group_name(l2, r2, n),
    ensures
        group_names(l1, r1) == group_names(l2, r2),
{
    lemma_group_names_exist(l1, r1);
    lemma_group_names_exist(l2, r2);
    let p = group_names(l1, r1);
    let q = group_names(l2, r2);
    assert forall|n: Seq<char>| p.contains(n) <==> q.contains(n) by {
        assert(p.contains(n) <==> is_group_name(l1, r1, n));
        assert(q.contains(n) <==> is_group_name(l2, r2, n));
    }
    lemma_sorted_names_unique(p, q);
}

/// Swapping the sides keeps the groups and their order, and exchanges the
/// rows: what was listed with `R` is listed with `L`, and the other way
/// round.
pub proof fn law_report_swaps_sides(l: DirPairs, r: DirPairs, opts: RenderOptions)
    ensures
        group_names(r, l) == group_names(l, r),
        report_text(r, l, opts) == join_with(
            group_names(l, r).map_values(|n: Seq<char>|
                basename_row(n, opts.color) + rows_text(side_rows(r, l, n), Side::Left, opts)
                    + rows_text(side_rows(l, r, n), Side::Right, opts)),
            seq!['\n', '\n'],
        ),
{
    lemma_group_names_equal(r, l, l, r);
    assert(group_names(r, l).map_values(|n: Seq<char>| block_text(n, r, l, opts)) =~= group_names(l, r).map_values(
        |n: Seq<char>|
            basename_row(n, opts.color) + rows_text(side_rows(r, l, n), Side::Left, opts)
                + rows_text(side_rows(l, r, n), Side::Right, opts),
    ));
}

/// The relative paths of `m`, in order.
pub open spec fn keys_of(m: DirPairs) -> Seq<Seq<char>> {
    m.map_values(|e: (Seq<char>, Seq<char>)| e.0)
}

proof fn lemma_keys_of(m: DirPairs)
    requires
        keys_sorted(m),
    ensures
        names_sorted(keys_of(m)),
        forall|k: Seq<char>| #[trigger] keys_of(m).contains(k) <==> has_key(m, k),
{
    let q = keys_of(m);
    assert forall|a: int, b: int| 0 <= a < b < q.len() implies str_lt(#[trigger] q[a], #[trigger] q[b]) by {
        assert(str_lt(m[a].0, m[b].0));
    }
    assert forall|k: Seq<char>| #[trigger] q.contains(k) <==> has_key(m, k) by {
        if q.contains(k) {
            let i = choose|i: int| 0 <= i < q.len() && q[i] == k;
            assert(m[i].0 == k);
        }
        if has_key(m, k) {
            let i = choose|i: int| 0 <= i < m.len() && #[trigger] m[i].0 == k;
            assert(q[i] == k);
        }
    }
}

proof fn lemma_side_rows_keys(a1: DirPairs, a2: DirPairs, b1: DirPairs, b2: DirPairs, n: Seq<char>)
    requires
        keys_of(a1) == keys_of(a2),
        forall|k: Seq<char>| has_key(b1, k) <==> has_key(b2, k),
    ensures
        keys_of(side_rows(a1, b1, n)) == keys_of(side_rows(a2, b2, n)),
    decreases a1.len(),
{
    assert(a1.len() == keys_of(a1).len());
    assert(a2.len() == keys_of(a2).len());
    if a1.len() > 0 {
        assert(keys_of(a1.drop_last()) =~= keys_of(a1).drop_last());
        assert(keys_of(a2.drop_last()) =~= keys_of(a2).drop_last());
        lemma_side_rows_keys(a1.drop_last(), a2.drop_last(), b1, b2, n);
        assert(a1.last().0 == keys_of(a1)[a1.len() - 1]);
        assert(a2.last().0 == keys_of(a2)[a2.len() - 1]);
        let p1 = side_rows(a1.drop_last(), b1, n);
        let p2 = side_rows(a2.drop_last(), b2, n);
        assert(keys_of(p1.push(a1.last())) =~= keys_of(p1).push(a1.last().0));
        assert(keys_of(p2.push(a2.last())) =~= keys_of(p2).push(a2.last().0));
    }
}

proof fn lemma_rows_text_keys(rows1: DirPairs, rows2: DirPairs, side: Side, opts: RenderOptions)
    requires
        !opts.hyperlink,
        keys_of(rows1) == keys_of(rows2),
    ensures
        rows_text(rows1, side, opts) == rows_text(rows2, side, opts),
    decreases rows1.len(),
{
    assert(rows1.len() == keys_of(rows1).len());
    assert(rows2.len() == keys_of(rows2).len());
    if rows1.len() > 0 {
        assert(keys_of(rows1.drop_last()) =~= keys_of(rows1).drop_last());
        assert(keys_of(rows2.drop_last()) =~= keys_of(rows2).drop_last());
        lemma_rows_text_keys(rows1.drop_last(), rows2.drop_last(), side, opts);
        assert(rows1.last().0 == keys_of(rows1)[rows1.len() - 1]);
        assert(rows2.last().0 == keys_of(rows2)[rows2.len() - 1]);
    }
}

/// Without hyperlinks the full URIs never reach the report: it depends on
/// the relative paths of both sides alone.
pub proof fn law_report_ignores_uris_without_links(l1: DirPairs, r1: DirPairs, l2: DirPairs, r2: DirPairs,
    opts: RenderOptions)
    requires
        !opts.hyperlink,
        keys_sorted(l1),
        keys_sorted(r1),
        keys_sorted(l2),
        keys_sorted(r2),
        forall|k: Seq<char>| has_key(l1, k) <==> has_key(l2, k),
        forall|k: Seq<char>| has_key(r1, k) <==> has_key(r2, k),
    ensures
        report_text(l1, r1, opts) == report_text(l2, r2, opts),
{
    lemma_keys_of(l1);
    lemma_keys_of(l2);
    lemma_keys_of(r1);
    lemma_keys_of(r2);
    assert forall|k: Seq<char>| keys_of(l1).contains(k) <==> keys_of(l2).contains(k) by {
        assert(keys_of(l1).contains(k) <==> has_key(l1, k));
        assert(keys_of(l2).contains(k) <==> has_key(l2, k));
    }
    assert forall|k: Seq<char>| keys_of(r1).contains(k) <==> keys_of(r2).contains(k) by {
        assert(keys_of(r1).contains(k) <==> has_key(r1, k));
        assert(keys_of(r2).contains(k) <==> has_key(r2, k));
    }
    lemma_sorted_names_unique(keys_of(l1), keys_of(l2));
    lemma_sorted_names_unique(keys_of(r1), keys_of(r2));
    assert forall|n: Seq<char>| #![trigger is_group_name(l1, r1, n)] #![trigger is_group_name(l2, r2, n)]
        keys_of(side_rows(l1, r1, n)) == keys_of(side_rows(l2, r2, n))
        && keys_of(side_rows(r1, l1, n)) == keys_of(side_rows(r2, l2, n))
        && (is_group_name(l1, r1, n) <==> is_group_name(l2, r2, n)) by {
        lemma_side_rows_keys(l1, l2, r1, r2, n);
        lemma_side_rows_keys(r1, r2, l1, l2, n);
        assert(side_rows(l1, r1, n).len() == keys_of(side_rows(l1, r1, n)).len());
        assert(side_rows(l2, r2, n).len() == keys_of(side_rows(l2, r2, n)).len());
        assert(side_rows(r1, l1, n).len() == keys_of(side_rows(r1, l1, n)).len());
        assert(side_rows(r2, l2, n).len() == keys_of(side_rows(r2, l2, n)).len());
    }
    lemma_group_names_equal(l1, r1, l2, r2);
    let names = group_names(l1, r1);
    assert forall|i: int| 0 <= i < names.len() implies block_text(names[i], l1, r1, opts) == block_text(names[i], l2, r2, opts) by {
        let n = names[i];
        lemma_side_rows_keys(l1, l2, r1, r2, n);
        lemma_side_rows_keys(r1, r2, l1, l2, n);
        lemma_rows_text_keys(side_rows(l1, r1, n), side_rows(l2, r2, n), Side::Left, opts);
        lemma_rows_text_keys(side_rows(r1, l1, n), side_rows(r2, l2, n), Side::Right, opts);
    }
    assert(names.map_values(|n: Seq<char>| block_text(n, l1, r1, opts)) =~= names.map_values(
        |n: Seq<char>| block_text(n, l2, r2, opts),
    ));
}

} // verus!
