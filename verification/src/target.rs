//! What a positional argument names, and how the two sides are paired.

use vstd::prelude::*;
use crate::report::Side;
use crate::text::{chars_of, string_of, sub_chars};

verus! {

/// One side as written on the command line.
pub enum ParsedArg {
    /// A local `path`.
    Local(String),
    /// `host:`: the remote host's current directory.
    RemoteEmpty { host: String },
    /// `host:path`.
    RemotePath { host: String, path: String },
}

/// The abstract content of a [`ParsedArg`].
pub enum ArgView {
    Local(Seq<char>),
    RemoteEmpty(Seq<char>),
    RemotePath(Seq<char>, Seq<char>),
}

impl View for ParsedArg {
    type V = ArgView;

    open spec fn view(&self) -> ArgView {
        match self {
            ParsedArg::Local(p) => ArgView::Local(p@),
            ParsedArg::RemoteEmpty { host } => ArgView::RemoteEmpty(host@),
            ParsedArg::RemotePath { host, path } => ArgView::RemotePath(host@, path@),
        }
    }
}

/// The position of the first `:` in `s`.
pub open spec fn first_colon(s: Seq<char>) -> Option<int>
    decreases s.len(),
{
    if s.len() == 0 {
        None
    } else if s[0] == ':' {
        Some(0)
    } else {
        match first_colon(s.drop_first()) {
            Some(i) => Some(i + 1),
            None => None,
        }
    }
}

proof fn lemma_first_colon(s: Seq<char>, i: int)
    requires
        0 <= i <= s.len(),
        forall|j: int| 0 <= j < i ==> s[j] != ':',
    ensures
        i < s.len() && s[i] == ':' ==> first_colon(s) == Some(i),
        i == s.len() ==> first_colon(s) is None,
    decreases i,
{
    if i > 0 {
        lemma_first_colon(s.drop_first(), i - 1);
    }
}

/// What an argument names: split at its first `:`, `host:path` with a
/// non-empty host is remote, `host:` stands for the host's current
/// directory, an empty host is refused, and an argument without `:` is a
/// local path.
pub open spec fn arg_meaning(raw: Seq<char>) -> Result<ArgView, Seq<char>> {
    match first_colon(raw) {
        None => Ok(ArgView::Local(raw)),
        Some(i) => if i == 0 {
            Err("invalid argument `"@ + raw + "`: host is empty"@)
        } else if i + 1 == raw.len() {
            Ok(ArgView::RemoteEmpty(raw.take(i)))
        } else {
            Ok(ArgView::RemotePath(raw.take(i), raw.skip(i + 1)))
        },
    }
}

/// Reads one side of the comparison.
pub fn parse_arg(raw: &str) -> (r: Result<ParsedArg, String>)
    ensures
        match r {
            Ok(a) => arg_meaning(raw@) == Ok::<ArgView, Seq<char>>(a@),
            Err(e) => arg_meaning(raw@) == Err::<ArgView, Seq<char>>(e@),
        },
{
    let v = chars_of(raw);
    let mut i: usize = 0;
    while i < v.len() && v[i] != ':'
        invariant
            i <= v.len(),
            v@ == raw@,
            forall|j: int| 0 <= j < i ==> v@[j] != ':',
        decreases v.len() - i,
    {
        i += 1;
    }
    proof { lemma_first_colon(v@, i as int); }
    if i == v.len() {
        return Ok(ParsedArg::Local(string_of(&v)));
    }
    if i == 0 {
        let mut e = String::new();
        e.append("invalid argument `");
        e.append(raw);
        e.append("`: host is empty");
        return Err(e);
    }
    let host = sub_chars(&v, 0, i);
    assert(host@ =~= v@.take(i as int));
    if i + 1 == v.len() {
        Ok(ParsedArg::RemoteEmpty { host: string_of(&host) })
    } else {
        let path = sub_chars(&v, i + 1, v.len());
        assert(path@ =~= v@.skip(i + 1));
        Ok(ParsedArg::RemotePath { host: string_of(&host), path: string_of(&path) })
    }
}

/// How the two sides are to be resolved.
pub enum PairPlan {
    /// One side is `host:` and the other a local path: the local path is
    /// made absolute, and the remote side uses that absolute path as its
    /// root on `host`. `remote_side` tells which side is remote.
    SharedRoot { host: String, local: String, remote_side: Side },
    /// Each side is resolved on its own.
    Separate { left: ParsedArg, right: ParsedArg },
}

/// The abstract content of a [`PairPlan`].
pub enum PairView {
    SharedRoot(Seq<char>, Seq<char>, Side),
    Separate(ArgView, ArgView),
}

impl View for PairPlan {
    type V = PairView;

    open spec fn view(&self) -> PairView {
        match self {
            PairPlan::SharedRoot { host, local, remote_side } => PairView::SharedRoot(host@, local@, *remote_side),
            PairPlan::Separate { left, right } => PairView::Separate(left@, right@),
        }
    }
}

/// How the sides written `left` and `right` are paired: an error of the
/// left argument first, then of the right one; a `host:` facing a local
/// path shares that path as its root; any other pair is resolved side by
/// side.
pub open spec fn pair_meaning(left: Seq<char>, right: Seq<char>) -> Result<PairView, Seq<char>> {
    match arg_meaning(left) {
        Err(e) => Err(e),
        Ok(l) => match arg_meaning(right) {
            Err(e) => Err(e),
            Ok(r) => match (l, r) {
                (ArgView::RemoteEmpty(h), ArgView::Local(p)) => Ok(PairView::SharedRoot(h, p, Side::Left)),
                (ArgView::Local(p), ArgView::RemoteEmpty(h)) => Ok(PairView::SharedRoot(h, p, Side::Right)),
                (l, r) => Ok(PairView::Separate(l, r)),
            },
        },
    }
}

/// Reads both sides and decides how they are resolved.
pub fn normalize_pair(left_raw: &str, right_raw: &str) -> (r: Result<PairPlan, String>)
    ensures
        match r {
            Ok(p) => pair_meaning(left_raw@, right_raw@) == Ok::<PairView, Seq<char>>(p@),
            Err(e) => pair_meaning(left_raw@, right_raw@) == Err::<PairView, Seq<char>>(e@),
        },
{
    let left = match parse_arg(left_raw) {
        Ok(a) => a,
        Err(e) => return Err(e),
    };
    let right = match parse_arg(right_raw) {
        Ok(a) => a,
        Err(e) => return Err(e),
    };
    match (left, right) {
        (ParsedArg::RemoteEmpty { host }, ParsedArg::Local(local)) => {
            Ok(PairPlan::SharedRoot { host, local, remote_side: Side::Left })
        },
        (ParsedArg::Local(local), ParsedArg::RemoteEmpty { host }) => {
            Ok(PairPlan::SharedRoot { host, local, remote_side: Side::Right })
        },
        (left, right) => Ok(PairPlan::Separate { left, right }),
    }
}

/// The three forms of an argument: a text without `:` is a local path;
/// `host:` names the host's current directory; `host:path` names `path` on
/// the host, where `path` may itself hold `:`.
pub proof fn law_argument_forms(host: Seq<char>, path: Seq<char>)
    requires
        host.len() > 0,
        forall|i: int| 0 <= i < host.len() ==> host[i] != ':',
    ensures
        arg_meaning(host) == Ok::<ArgView, Seq<char>>(ArgView::Local(host)),
        arg_meaning(host + seq![':']) == Ok::<ArgView, Seq<char>>(ArgView::RemoteEmpty(host)),
        path.len() > 0 ==> arg_meaning(host + seq![':'] + path) == Ok::<ArgView, Seq<char>>(
            ArgView::RemotePath(host, path),
        ),
{
    lemma_first_colon(host, host.len() as int);
    let a = host + seq![':'];
    let b = host + seq![':'] + path;
    assert forall|j: int| 0 <= j < host.len() implies a[j] != ':' by {
        assert(a[j] == host[j]);
    }
    assert forall|j: int| 0 <= j < host.len() implies b[j] != ':' by {
        assert(b[j] == host[j]);
    }
    lemma_first_colon(a, host.len() as int);
    lemma_first_colon(b, host.len() as int);
    assert(a.take(host.len() as int) =~= host);
    assert(b.take(host.len() as int) =~= host);
    assert(b.skip(host.len() as int + 1) =~= path);
}

/// Swapping the two arguments swaps the sides of a shared root: the host
/// and the local path stay the same, the remote side changes.
pub proof fn law_shared_root_follows_the_arguments(a: Seq<char>, b: Seq<char>)
    ensures
        pair_meaning(a, b) matches Ok(PairView::SharedRoot(h, p, side)) ==> pair_meaning(b, a)
            == Ok::<PairView, Seq<char>>(PairView::SharedRoot(
            h,
            p,
            match side {
                Side::Left => Side::Right,
                Side::Right => Side::Left,
            },
        )),
{
}

/// Sides that are not a `host:` facing a local path keep their own
/// arguments, each on its own side: the left side is what the left argument
/// names and the right side what the right argument names. With two local
/// paths `a` and `b`, `a` is compared with `b`; with `h1:p1` and `h2:p2`,
/// `p1` on `h1` is compared with `p2` on `h2`.
pub proof fn law_separate_sides_keep_their_arguments(a: Seq<char>, b: Seq<char>, x: ArgView, y: ArgView)
    ensures
        (forall|i: int| 0 <= i < a.len() ==> a[i] != ':') && (forall|i: int| 0 <= i < b.len() ==> b[i] != ':')
            ==> pair_meaning(a, b) == Ok::<PairView, Seq<char>>(PairView::Separate(ArgView::Local(a), ArgView::Local(b))),
        arg_meaning(a) == Ok::<ArgView, Seq<char>>(x) && arg_meaning(b) == Ok::<ArgView, Seq<char>>(y)
            && !(x is RemoteEmpty && y is Local) && !(x is Local && y is RemoteEmpty)
            ==> pair_meaning(a, b) == Ok::<PairView, Seq<char>>(PairView::Separate(x, y)),
{
    if (forall|i: int| 0 <= i < a.len() ==> a[i] != ':') && (forall|i: int| 0 <= i < b.len() ==> b[i] != ':') {
        lemma_first_colon(a, a.len() as int);
        lemma_first_colon(b, b.len() as int);
    }
}

/// Two remote sides `h1:p1` and `h2:p2` are resolved each on its own host,
/// the first on the left and the second on the right.
pub proof fn law_remote_sides_keep_their_arguments(h1: Seq<char>, p1: Seq<char>, h2: Seq<char>, p2: Seq<char>)
    requires
        h1.len() > 0,
        h2.len() > 0,
        p1.len() > 0,
        p2.len() > 0,
        forall|i: int| 0 <= i < h1.len() ==> h1[i] != ':',
        forall|i: int| 0 <= i < h2.len() ==> h2[i] != ':',
    ensures
        pair_meaning(h1 + seq![':'] + p1, h2 + seq![':'] + p2) == Ok::<PairView, Seq<char>>(
            PairView::Separate(ArgView::RemotePath(h1, p1), ArgView::RemotePath(h2, p2)),
        ),
{
    law_argument_forms(h1, p1);
    law_argument_forms(h2, p2);
}

} // verus!
