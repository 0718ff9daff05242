//! What is sent to a remote host over SSH, and how its replies are read.

use vstd::prelude::*;
use vstd::utf8::{valid_utf8, decode_utf8, encode_utf8};
use crate::dirmap::{DirMap, as_map};
use crate::paths::{split_by, remote_join, join_remote_path};
use crate::shell::{shell_quoted, push_shell_quoted};
use crate::text::{is_unicode_whitespace, lemma_trim_start_shape, lemma_trim_end_shape, chars_of, decimal, push_char, push_chars, push_decimal, string_of, trim, trim_chars};
use crate::uri::{ssh_uri, remote_uri};

verus! {

/// The text that std's `String::from_utf8_lossy` makes of `bytes`, where
/// invalid sequences become replacement characters.
pub uninterp spec fn utf8_lossy(bytes: Seq<u8>) -> Seq<char>;

/// std's `String::from_utf8`. As its documentation states, the conversion
/// succeeds exactly when the bytes are valid UTF-8, and then yields the
/// characters they encode.
#[verifier::external_body]
fn string_from_utf8(bytes: &[u8]) -> (r: Option<String>)
    ensures
        r is Some <==> valid_utf8(bytes@),
        r matches Some(s) ==> s@ == decode_utf8(bytes@),
{
    String::from_utf8(bytes.to_vec()).ok()
}

/// std's `String::from_utf8_lossy`. Its result is named by [`utf8_lossy`];
/// the documentation adds that valid UTF-8 comes back unchanged. Which
/// characters replace invalid bytes is not stated here.
#[verifier::external_body]
fn string_from_utf8_lossy(bytes: &[u8]) -> (s: String)
    ensures
        s@ == utf8_lossy(bytes@),
        valid_utf8(bytes@) ==> s@ == decode_utf8(bytes@),
{
    String::from_utf8_lossy(bytes).into_owned()
}

/// What a run of `ssh` gave back.
pub struct SshReply {
    /// Whether the remote command exited successfully.
    pub success: bool,
    /// Its standard output.
    pub stdout: Vec<u8>,
    /// Its standard error.
    pub stderr: Vec<u8>,
}

/// The message for a failed remote command: host, command, and the trimmed
/// text of its standard error.
pub open spec fn failure_message_text(host: Seq<char>, remote_cmd: Seq<char>, stderr_text: Seq<char>) -> Seq<char> {
    "`ssh "@ + host + "` failed while running `"@ + remote_cmd + "`\n"@ + trim(stderr_text)
}

/// The message for a failed remote command whose standard error was
/// `stderr`, read leniently as UTF-8.
pub open spec fn ssh_failure_text(host: Seq<char>, remote_cmd: Seq<char>, stderr: Seq<u8>) -> Seq<char> {
    failure_message_text(host, remote_cmd, utf8_lossy(stderr))
}

/// Describes a failed remote command, given the text of its standard error.
pub fn ssh_failure_message(host: &str, remote_cmd: &str, stderr_text: &str) -> (s: String)
    ensures
        s@ == failure_message_text(host@, remote_cmd@, stderr_text@),
{
    let trimmed = trim_chars(&chars_of(stderr_text));
    let mut out = String::new();
    out.append("`ssh ");
    out.append(host);
    out.append("` failed while running `");
    out.append(remote_cmd);
    out.append("`\n");
    push_chars(&mut out, &trimmed);
    out
}

/// Describes a failed remote command.
pub fn format_ssh_failure(host: &str, remote_cmd: &str, stderr: &[u8]) -> (s: String)
    ensures
        s@ == ssh_failure_text(host@, remote_cmd@, stderr@),
        valid_utf8(stderr@) ==> s@ == failure_message_text(host@, remote_cmd@, decode_utf8(stderr@)),
{
    let text = string_from_utf8_lossy(stderr);
    ssh_failure_message(host, remote_cmd, text.as_str())
}

/// The command that prints the physical path of `path` on the remote host,
/// or of the remote current directory when there is no path.
pub open spec fn pwd_command_text(path: Option<Seq<char>>) -> Seq<char> {
    match path {
        Some(p) => "cd -- "@ + shell_quoted(p) + " && pwd -P"@,
        None => "pwd -P"@,
    }
}

/// The remote command that resolves a remote path.
pub fn remote_pwd_command(path: Option<&str>) -> (s: String)
    ensures
        s@ == pwd_command_text(match path { Some(p) => Some(p@), None => None }),
{
    let mut out = String::new();
    match path {
        Some(p) => {
            out.append("cd -- ");
            push_shell_quoted(&mut out, p);
            out.append(" && pwd -P");
        },
        None => {
            out.append("pwd -P");
        },
    }
    out
}

/// What a remote path resolves to, given the reply to the `pwd` command:
/// the failure message when the command failed, an error when its output is
/// not UTF-8 or is blank, and otherwise the output without surrounding
/// whitespace.
pub open spec fn resolved_remote_root(host: Seq<char>, path: Option<Seq<char>>, success: bool,
    stdout: Seq<u8>, stderr: Seq<u8>) -> Result<Seq<char>, Seq<char>> {
    if !success {
        Err(ssh_failure_text(host, pwd_command_text(path), stderr))
    } else if !valid_utf8(stdout) {
        Err("`ssh "@ + host + "` returned a non-UTF-8 path"@)
    } else if trim(decode_utf8(stdout)).len() == 0 {
        Err("`ssh "@ + host + "` returned an empty path"@)
    } else {
        Ok(trim(decode_utf8(stdout)))
    }
}

/// Reads the reply to the command of [`remote_pwd_command`] for `path`.
pub fn resolve_remote_path(host: &str, path: Option<&str>, reply: &SshReply) -> (r: Result<String, String>)
    ensures
        match r {
            Ok(s) => resolved_remote_root(host@, match path { Some(p) => Some(p@), None => None },
                reply.success, reply.stdout@, reply.stderr@) == Ok::<Seq<char>, Seq<char>>(s@),
            Err(e) => resolved_remote_root(host@, match path { Some(p) => Some(p@), None => None },
                reply.success, reply.stdout@, reply.stderr@) == Err::<Seq<char>, Seq<char>>(e@),
        },
{
    if !reply.success {
        let cmd = remote_pwd_command(path);
        return Err(format_ssh_failure(host, cmd.as_str(), reply.stderr.as_slice()));
    }
    match string_from_utf8(reply.stdout.as_slice()) {
        None => {
            let mut e = String::new();
            e.append("`ssh ");
            e.append(host);
            e.append("` returned a non-UTF-8 path");
            Err(e)
        },
        Some(text) => {
            let root = trim_chars(&chars_of(text.as_str()));
            if root.len() == 0 {
                let mut e = String::new();
                e.append("`ssh ");
                e.append(host);
                e.append("` returned an empty path");
                Err(e)
            } else {
                Ok(string_of(&root))
            }
        },
    }
}

/// The command that lists, NUL-separated, the directories under `root` on
/// the remote host, down to `max_depth` levels where there is a limit.
pub open spec fn find_command_text(root: Seq<char>, max_depth: Option<usize>) -> Seq<char> {
    "cd -- "@ + shell_quoted(root) + " && find . -mindepth 1 "@ + match max_depth {
        Some(d) => "-maxdepth "@ + decimal(d as nat) + " "@,
        None => Seq::empty(),
    } + "-type d -print0"@
}

/// The remote command that lists the directories under `root`.
pub fn remote_find_command(root: &str, max_depth: Option<usize>) -> (s: String)
    ensures
        s@ == find_command_text(root@, max_depth),
{
    let mut out = String::new();
    out.append("cd -- ");
    push_shell_quoted(&mut out, root);
    out.append(" && find . -mindepth 1 ");
    let ghost before = out@;
    match max_depth {
        Some(d) => {
            out.append("-maxdepth ");
            push_decimal(&mut out, d);
            out.append(" ");
        },
        None => {
            assert(out@ =~= before + Seq::<char>::empty());
        },
    }
    out.append("-type d -print0");
    out
}

/// `s` without every leading `./`.
pub open spec fn trim_dot_slash(s: Seq<char>) -> Seq<char>
    decreases s.len(),
{
    if s.len() >= 2 && s[0] == '.' && s[1] == '/' {
        trim_dot_slash(s.skip(2))
    } else {
        s
    }
}

/// The relative path that a path printed by `find` names.
pub open spec fn printed_path_text(path: Seq<u8>) -> Seq<char> {
    trim_dot_slash(utf8_lossy(path))
}

/// `text` without every leading `./`, as `str::trim_start_matches("./")`
/// returns it.
pub fn trim_leading_dot_slash(text: &str) -> (s: String)
    ensures
        s@ == trim_dot_slash(text@),
{
    let v = chars_of(text);
    let n = v.len();
    let mut i: usize = 0;
    assert(v@.skip(0) =~= v@);
    while n - i >= 2 && v[i] == '.' && v[i + 1] == '/'
        invariant
            i <= n == v.len(),
            trim_dot_slash(v@) == trim_dot_slash(v@.skip(i as int)),
        decreases n - i,
    {
        assert(v@.skip(i as int).skip(2) =~= v@.skip(i + 2));
        i += 2;
    }
    let rest = crate::text::sub_chars(&v, i, n);
    assert(rest@ =~= v@.skip(i as int));
    string_of(&rest)
}

/// The text of a path printed by `find`, read leniently as UTF-8, without its
/// leading `./`.
pub fn bytes_to_path_string(path: &[u8]) -> (s: String)
    ensures
        s@ == printed_path_text(path@),
        valid_utf8(path@) ==> s@ == trim_dot_slash(decode_utf8(path@)),
{
    let text = string_from_utf8_lossy(path);
    trim_leading_dot_slash(text.as_str())
}

proof fn lemma_trim_dot_slash_done(x: Seq<char>)
    ensures
        !(trim_dot_slash(x).len() >= 2 && trim_dot_slash(x)[0] == '.' && trim_dot_slash(x)[1] == '/'),
    decreases x.len(),
{
    if x.len() >= 2 && x[0] == '.' && x[1] == '/' {
        lemma_trim_dot_slash_done(x.skip(2));
    }
}

/// A path read from `find`'s output never starts with `./`, and read again
/// from its own UTF-8 bytes it comes back unchanged.
pub proof fn law_printed_path_is_stable(x: Seq<char>)
    ensures
        !(trim_dot_slash(x).len() >= 2 && trim_dot_slash(x)[0] == '.' && trim_dot_slash(x)[1] == '/'),
        valid_utf8(encode_utf8(trim_dot_slash(x))),
        trim_dot_slash(decode_utf8(encode_utf8(trim_dot_slash(x)))) == trim_dot_slash(x),
{
    broadcast use vstd::utf8::encode_utf8_valid_utf8, vstd::utf8::encode_utf8_decode_utf8;
    let t = trim_dot_slash(x);
    lemma_trim_dot_slash_done(x);
    assert(decode_utf8(encode_utf8(t)) == t);
    assert(trim_dot_slash(t) == t);
}

/// A path printed by `find` without its leading `./`, where it has one.
pub open spec fn strip_dot_slash(raw: Seq<u8>) -> Seq<u8> {
    if raw.len() >= 2 && raw[0] == 0x2eu8 && raw[1] == 0x2fu8 {
        raw.skip(2)
    } else {
        raw
    }
}

/// The directories that the NUL-separated paths `chunks` name under the
/// remote `root`: relative path to `ssh://` URI, where a later path replaces
/// an earlier one with the same relative path.
pub open spec fn remote_entries(host: Seq<char>, root: Seq<char>, chunks: Seq<Seq<u8>>) -> Map<Seq<char>, Seq<char>>
    decreases chunks.len(),
{
    if chunks.len() == 0 {
        Map::empty()
    } else {
        let m = remote_entries(host, root, chunks.drop_last());
        let rel = strip_dot_slash(chunks.last());
        if rel.len() > 0 {
            let p = printed_path_text(rel);
            m.insert(p, ssh_uri(host, remote_join(root, p)))
        } else {
            m
        }
    }
}

/// [`remote_entries`] for paths that are valid UTF-8: each path is read as
/// the characters it encodes.
pub open spec fn remote_entries_utf8(host: Seq<char>, root: Seq<char>, chunks: Seq<Seq<u8>>) -> Map<Seq<char>, Seq<char>>
    decreases chunks.len(),
{
    if chunks.len() == 0 {
        Map::empty()
    } else {
        let m = remote_entries_utf8(host, root, chunks.drop_last());
        let rel = strip_dot_slash(chunks.last());
        if rel.len() > 0 {
            let p = trim_dot_slash(decode_utf8(rel));
            m.insert(p, ssh_uri(host, remote_join(root, p)))
        } else {
            m
        }
    }
}

proof fn lemma_strip_dot_slash_valid(raw: Seq<u8>)
    requires
        valid_utf8(raw),
    ensures
        valid_utf8(strip_dot_slash(raw)),
{
    if raw.len() >= 2 && raw[0] == 0x2eu8 && raw[1] == 0x2fu8 {
        let r1 = vstd::utf8::pop_first_scalar(raw);
        assert(vstd::utf8::length_of_first_scalar(raw) == 1);
        assert(r1 =~= raw.subrange(1, raw.len() as int));
        assert(valid_utf8(r1));
        assert(r1[0] == 0x2fu8);
        let r2 = vstd::utf8::pop_first_scalar(r1);
        assert(vstd::utf8::length_of_first_scalar(r1) == 1);
        assert(valid_utf8(r2));
        assert(r2 =~= raw.skip(2));
    }
}

/// The byte views of a vector of byte vectors.
pub open spec fn byte_views(v: Seq<Vec<u8>>) -> Seq<Seq<u8>> {
    v.map_values(|p: Vec<u8>| p@)
}

proof fn lemma_byte_views_push(s: Seq<Vec<u8>>, x: Vec<u8>)
    ensures
        byte_views(s.push(x)) == byte_views(s).push(x@),
{
    assert(byte_views(s.push(x)) =~= byte_views(s).push(x@));
}

/// Cuts `v` at every `sep`.
fn split_bytes(v: &Vec<u8>, sep: u8) -> (parts: Vec<Vec<u8>>)
    ensures
        byte_views(parts@) == split_by(v@, sep),
{
    let mut parts: Vec<Vec<u8>> = Vec::new();
    let mut cur: Vec<u8> = Vec::new();
    assert(v@.take(0) =~= Seq::<u8>::empty());
    assert(byte_views(parts@).push(cur@) =~= split_by(v@.take(0), sep));
    for i in 0..v.len()
        invariant
            byte_views(parts@).push(cur@) == split_by(v@.take(i as int), sep),
    {
        let c = v[i];
        assert(v@.take(i + 1).drop_last() =~= v@.take(i as int));
        assert(v@.take(i + 1).last() == c);
        let ghost before = byte_views(parts@).push(cur@);
        if c == sep {
            proof { lemma_byte_views_push(parts@, cur); }
            parts.push(cur);
            cur = Vec::new();
            assert(byte_views(parts@).push(cur@) =~= before.push(Seq::empty()));
        } else {
            cur.push(c);
            assert(byte_views(parts@).push(cur@) =~= before.update(
                before.len() - 1,
                before.last().push(c),
            ));
        }
    }
    assert(v@.take(v.len() as int) =~= v@);
    proof { lemma_byte_views_push(parts@, cur); }
    parts.push(cur);
    parts
}

fn strip_dot_slash_bytes(raw: &Vec<u8>) -> (r: Vec<u8>)
    ensures
        r@ == strip_dot_slash(raw@),
{
    let start: usize = if raw.len() >= 2 && raw[0] == 0x2eu8 && raw[1] == 0x2fu8 { 2 } else { 0 };
    let mut r: Vec<u8> = Vec::new();
    let mut i = start;
    while i < raw.len()
        invariant
            start <= i <= raw.len(),
            r@ == raw@.subrange(start as int, i as int),
        decreases raw.len() - i,
    {
        r.push(raw[i]);
        i += 1;
        assert(r@ =~= raw@.subrange(start as int, i as int));
    }
    assert(raw@.subrange(0, raw@.len() as int) =~= raw@);
    assert(raw@.subrange(2, raw@.len() as int) =~= raw@.skip(2));
    r
}

/// Reads the reply to the command of [`remote_find_command`]: the failure
/// message when the command failed, else every directory it printed, with
/// its `ssh://` URI under `root` on `host`.
pub fn collect_remote_dirs(host: &str, root: &str, max_depth: Option<usize>, reply: &SshReply) -> (r: Result<DirMap, String>)
    ensures
        match r {
            Ok(m) => reply.success && as_map(m@) == remote_entries(host@, root@, split_by(reply.stdout@, 0u8))
                && ((forall|k: int| 0 <= k < split_by(reply.stdout@, 0u8).len()
                    ==> valid_utf8(#[trigger] split_by(reply.stdout@, 0u8)[k]))
                    ==> as_map(m@) == remote_entries_utf8(host@, root@, split_by(reply.stdout@, 0u8))),
            Err(e) => !reply.success && e@ == ssh_failure_text(host@, find_command_text(root@, max_depth), reply.stderr@),
        },
{
    if !reply.success {
        let cmd = remote_find_command(root, max_depth);
        return Err(format_ssh_failure(host, cmd.as_str(), reply.stderr.as_slice()));
    }
    let chunks = split_bytes(&reply.stdout, 0u8);
    let ghost cv = byte_views(chunks@);
    let mut dirs = DirMap::new();
    assert(cv.take(0) =~= Seq::<Seq<u8>>::empty());
    assert(as_map(dirs@) =~= Map::<Seq<char>, Seq<char>>::empty());
    for k in 0..chunks.len()
        invariant
            cv == byte_views(chunks@),
            as_map(dirs@) == remote_entries(host@, root@, cv.take(k as int)),
            (forall|j: int| 0 <= j < k ==> valid_utf8(#[trigger] cv[j]))
                ==> as_map(dirs@) == remote_entries_utf8(host@, root@, cv.take(k as int)),
    {
        assert(cv.take(k + 1).drop_last() =~= cv.take(k as int));
        assert(cv.take(k + 1).last() == chunks@[k as int]@);
        let raw = &chunks[k];
        proof {
            if valid_utf8(raw@) {
                lemma_strip_dot_slash_valid(raw@);
            }
        }
        if raw.len() > 0 {
            let rel = strip_dot_slash_bytes(raw);
            if rel.len() > 0 {
                let rel_path = bytes_to_path_string(rel.as_slice());
                let full_path = join_remote_path(root, rel_path.as_str());
                let uri = remote_uri(host, full_path.as_str());
                dirs.insert(rel_path, uri);
            }
        } else {
            assert(strip_dot_slash(raw@) =~= raw@);
        }
    }
    assert(cv.take(chunks@.len() as int) =~= cv);
    assert(cv == split_by(reply.stdout@, 0u8));
    Ok(dirs)
}

/// Every directory that `find` printed is listed, under the relative path
/// that it names, with the `ssh://` URI of that path under the root; nothing
/// else is listed.
pub proof fn law_remote_listing_is_complete(host: Seq<char>, root: Seq<char>, chunks: Seq<Seq<u8>>)
    ensures
        forall|k: int| 0 <= k < chunks.len() && strip_dot_slash(chunks[k]).len() > 0
            ==> #[trigger] remote_entries(host, root, chunks).contains_key(printed_path_text(strip_dot_slash(chunks[k]))),
        forall|p: Seq<char>| #[trigger] remote_entries(host, root, chunks).contains_key(p) ==> (exists|k: int|
            0 <= k < chunks.len() && strip_dot_slash(chunks[k]).len() > 0
                && printed_path_text(strip_dot_slash(#[trigger] chunks[k])) == p),
        forall|p: Seq<char>| #[trigger] remote_entries(host, root, chunks).contains_key(p)
            ==> remote_entries(host, root, chunks)[p] == ssh_uri(host, remote_join(root, p)),
    decreases chunks.len(),
{
    if chunks.len() > 0 {
        let d = chunks.drop_last();
        law_remote_listing_is_complete(host, root, d);
        let m = remote_entries(host, root, chunks);
        let md = remote_entries(host, root, d);
        assert forall|k: int| 0 <= k < chunks.len() && strip_dot_slash(chunks[k]).len() > 0
            implies #[trigger] m.contains_key(printed_path_text(strip_dot_slash(chunks[k]))) by {
            if k < d.len() {
                assert(d[k] == chunks[k]);
                assert(md.contains_key(printed_path_text(strip_dot_slash(d[k]))));
            }
        }
        assert forall|p: Seq<char>| #[trigger] m.contains_key(p) implies (exists|k: int|
            0 <= k < chunks.len() && strip_dot_slash(chunks[k]).len() > 0
                && printed_path_text(strip_dot_slash(#[trigger] chunks[k])) == p) by {
            if md.contains_key(p) {
                let k = choose|k: int| 0 <= k < d.len() && strip_dot_slash(d[k]).len() > 0
                    && printed_path_text(strip_dot_slash(#[trigger] d[k])) == p;
                assert(chunks[k] == d[k]);
            } else {
                assert(chunks[chunks.len() - 1] == chunks.last());
            }
        }
    }
}

/// The same for paths that are valid UTF-8, read as the characters they
/// encode.
pub proof fn law_remote_listing_is_complete_utf8(host: Seq<char>, root: Seq<char>, chunks: Seq<Seq<u8>>)
    ensures
        forall|k: int| 0 <= k < chunks.len() && strip_dot_slash(chunks[k]).len() > 0
            ==> #[trigger] remote_entries_utf8(host, root, chunks).contains_key(trim_dot_slash(decode_utf8(strip_dot_slash(chunks[k])))),
        forall|p: Seq<char>| #[trigger] remote_entries_utf8(host, root, chunks).contains_key(p) ==> (exists|k: int|
            0 <= k < chunks.len() && strip_dot_slash(chunks[k]).len() > 0
                && trim_dot_slash(decode_utf8(strip_dot_slash(#[trigger] chunks[k]))) == p),
        forall|p: Seq<char>| #[trigger] remote_entries_utf8(host, root, chunks).contains_key(p)
            ==> remote_entries_utf8(host, root, chunks)[p] == ssh_uri(host, remote_join(root, p)),
    decreases chunks.len(),
{
    if chunks.len() > 0 {
        let d = chunks.drop_last();
        law_remote_listing_is_complete_utf8(host, root, d);
        let m = remote_entries_utf8(host, root, chunks);
        let md = remote_entries_utf8(host, root, d);
        assert forall|k: int| 0 <= k < chunks.len() && strip_dot_slash(chunks[k]).len() > 0
            implies #[trigger] m.contains_key(trim_dot_slash(decode_utf8(strip_dot_slash(chunks[k])))) by {
            if k < d.len() {
                assert(d[k] == chunks[k]);
                assert(md.contains_key(trim_dot_slash(decode_utf8(strip_dot_slash(d[k])))));
            }
        }
        assert forall|p: Seq<char>| #[trigger] m.contains_key(p) implies (exists|k: int|
            0 <= k < chunks.len() && strip_dot_slash(chunks[k]).len() > 0
                && trim_dot_slash(decode_utf8(strip_dot_slash(#[trigger] chunks[k]))) == p) by {
            if md.contains_key(p) {
                let k = choose|k: int| 0 <= k < d.len() && strip_dot_slash(d[k]).len() > 0
                    && trim_dot_slash(decode_utf8(strip_dot_slash(#[trigger] d[k]))) == p;
                assert(chunks[k] == d[k]);
            } else {
                assert(chunks[chunks.len() - 1] == chunks.last());
            }
        }
    }
}

/// A remote root is the output of `pwd -P` with only its surrounding
/// whitespace removed: it is a stretch of the decoded output with nothing but
/// whitespace before and after it, and it neither starts nor ends with
/// whitespace. Output made of whitespace alone is refused.
pub proof fn law_remote_root_is_trimmed_output(host: Seq<char>, path: Option<Seq<char>>, stdout: Seq<u8>,
    stderr: Seq<u8>)
    requires
        valid_utf8(stdout),
    ensures
        match resolved_remote_root(host, path, true, stdout, stderr) {
            Ok(root) => root.len() > 0 && !is_unicode_whitespace(root[0])
                && !is_unicode_whitespace(root.last())
                && exists|i: int, j: int| 0 <= i <= j <= decode_utf8(stdout).len()
                    && root == decode_utf8(stdout).subrange(i, j)
                    && (forall|k: int| 0 <= k < i ==> is_unicode_whitespace(#[trigger] decode_utf8(stdout)[k]))
                    && (forall|k: int| j <= k < decode_utf8(stdout).len() ==> is_unicode_whitespace(#[trigger] decode_utf8(stdout)[k])),
            Err(_) => forall|k: int| 0 <= k < decode_utf8(stdout).len() ==> is_unicode_whitespace(#[trigger] decode_utf8(stdout)[k]),
        },
{
    let t = decode_utf8(stdout);
    let i = lemma_trim_start_shape(t);
    let u = t.skip(i);
    let j = lemma_trim_end_shape(u);
    let root = trim(t);
    assert(root == u.take(j));
    assert(u.take(j) =~= t.subrange(i, i + j));
    assert forall|k: int| i + j <= k < t.len() implies is_unicode_whitespace(#[trigger] t[k]) by {
        assert(t[k] == u[k - i]);
    }
    if root.len() > 0 {
        assert(root[0] == t[i]);
        assert(root.last() == u[j - 1]);
        assert(0 <= i <= i + j <= t.len() && root == t.subrange(i, i + j)
            && (forall|k: int| 0 <= k < i ==> is_unicode_whitespace(#[trigger] t[k]))
            && (forall|k: int| i + j <= k < t.len() ==> is_unicode_whitespace(#[trigger] t[k])));
    } else {
        assert forall|k: int| 0 <= k < t.len() implies is_unicode_whitespace(#[trigger] t[k]) by {
            if k >= i {
                assert(t[k] == u[k - i]);
            }
        }
    }
}

} // verus!
