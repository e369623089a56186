use vstd::prelude::*;
use crate::payload::Args;
use crate::text::{
    chars_of, find_char, find_in_range, lemma_find_char, lemma_find_char_at, range_equals,
    string_of_range, trim, trim_range,
};

verus! {

/// A line without the `\r` that ended it together with `\n`.
pub open spec fn strip_cr(line: Seq<char>) -> Seq<char> {
    if line.len() > 0 && line.last() == '\r' {
        line.drop_last()
    } else {
        line
    }
}

/// The lines of `t` as `str::lines` yields them: cut at each `\n`, a `\r` just
/// before that `\n` dropped, and no empty line after a final `\n`.
pub open spec fn text_lines(t: Seq<char>) -> Seq<Seq<char>>
    decreases t.len(),
{
    if t.len() == 0 {
        seq![]
    } else {
        let i = find_char(t, '\n');
        if i < t.len() {
            proof {
                lemma_find_char(t, '\n');
            }
            seq![strip_cr(t.take(i))] + text_lines(t.skip(i + 1))
        } else {
            seq![t]
        }
    }
}

/// What one `.env` line says of `key`: `None` when the line is passed over (blank,
/// a `#` comment, no `=`, or another key); `Some(r)` when it names `key`, where `r`
/// is its trimmed value, or `None` for an empty value.
pub open spec fn env_line_value(line: Seq<char>, key: Seq<char>) -> Option<Option<Seq<char>>> {
    let s = trim(line);
    if s.len() == 0 || s[0] == '#' || !s.contains('=') {
        None
    } else {
        let i = find_char(s, '=');
        if trim(s.take(i)) == key {
            let v = trim(s.skip(i + 1));
            Some(if v.len() == 0 { None } else { Some(v) })
        } else {
            None
        }
    }
}

/// The value that the first line naming `key` gives it.
pub open spec fn env_lookup(lines: Seq<Seq<char>>, key: Seq<char>) -> Option<Seq<char>>
    decreases lines.len(),
{
    if lines.len() == 0 {
        None
    } else {
        match env_line_value(lines[0], key) {
            Some(r) => r,
            None => env_lookup(lines.drop_first(), key),
        }
    }
}

/// The value of `key` in the `.env` text `text`.
pub open spec fn env_file_value(text: Seq<char>, key: Seq<char>) -> Option<Seq<char>> {
    env_lookup(text_lines(text), key)
}

/// Looks up `key` in `KEY=VALUE` lines: blank lines, `#` comments and lines
/// without `=` are passed over, keys and values are trimmed, and the first line
/// with the key decides (`None` when its value is empty).
pub fn parse_env_file(text: &str, key: &str) -> (r: Option<String>)
    ensures
        r matches Some(v) ==> env_file_value(text@, key@) == Some(v@),
        r is None ==> env_file_value(text@, key@) is None,
{
    let t = chars_of(text);
    let k = chars_of(key);
    let n = t.len();
    let mut pos: usize = 0;
    assert(t@.skip(0) =~= t@);
    while pos < n
        invariant
            pos <= n == t@.len(),
            t@ == text@,
            k@ == key@,
            env_file_value(text@, key@) == env_lookup(text_lines(t@.skip(pos as int)), key@),
        decreases n - pos,
    {
        let e = find_in_range(&t, pos, n, '\n');
        let ghost rest = t@.skip(pos as int);
        assert(rest =~= t@.subrange(pos as int, n as int));
        let mut le = e;
        if e < n && e > pos && t[e - 1] == '\r' {
            le = e - 1;
        }
        let ghost line = t@.subrange(pos as int, le as int);
        proof {
            lemma_find_char(rest, '\n');
            if e < n {
                assert(rest.take(e - pos) =~= t@.subrange(pos as int, e as int));
                assert(rest.skip(e - pos + 1) =~= t@.skip(e + 1));
                assert(line =~= strip_cr(rest.take(e - pos)));
                assert(text_lines(rest) == seq![line] + text_lines(t@.skip(e + 1)));
            } else {
                assert(line =~= rest);
                assert(text_lines(rest) == seq![line]);
            }
            assert(text_lines(rest)[0] == line);
        }
        let (a, b) = trim_range(&t, pos, le);
        let ghost s = t@.subrange(a as int, b as int);
        if a < b && t[a] != '#' {
            let eq = find_in_range(&t, a, b, '=');
            proof {
                lemma_find_char(s, '=');
            }
            if eq < b {
                let (ka, kb) = trim_range(&t, a, eq);
                assert(s.take(eq - a) =~= t@.subrange(a as int, eq as int));
                if range_equals(&t, ka, kb, &k) {
                    let (va, vb) = trim_range(&t, eq + 1, b);
                    assert(s.skip(eq - a + 1) =~= t@.subrange(eq + 1, b as int));
                    if va == vb {
                        return None;
                    }
                    return Some(string_of_range(text, &t, va, vb));
                }
            }
        }
        assert(env_line_value(line, key@) is None);
        if e < n {
            pos = e + 1;
            assert(text_lines(rest).drop_first() =~= text_lines(t@.skip(pos as int)));
        } else {
            pos = n;
            assert(t@.skip(pos as int) =~= Seq::<char>::empty());
            assert(text_lines(rest).drop_first() =~= text_lines(t@.skip(pos as int)));
        }
    }
    assert(t@.skip(pos as int) =~= Seq::<char>::empty());
    None
}

/// Name of the variable that holds the webhook URL, in the environment and in `.env`.
pub open spec fn webhook_key() -> Seq<char> {
    seq![
        'D', 'I', 'S', 'C', 'O', 'R', 'D', '_', 'W', 'E', 'B', 'H', 'O', 'O', 'K', '_', 'U', 'R',
        'L',
    ]
}

/// The name of the variable that holds the webhook URL.
pub fn webhook_key_name() -> (r: &'static str)
    ensures
        r@ == webhook_key(),
{
    proof {
        reveal_strlit("DISCORD_WEBHOOK_URL");
    }
    "DISCORD_WEBHOOK_URL"
}

/// The trimmed text, when it is not blank.
pub open spec fn nonblank(s: Option<Seq<char>>) -> Option<Seq<char>> {
    match s {
        Some(u) => if trim(u).len() > 0 { Some(trim(u)) } else { None },
        None => None,
    }
}

/// The view of an optional string slice.
pub open spec fn opt_view(s: Option<&str>) -> Option<Seq<char>> {
    match s {
        Some(u) => Some(u@),
        None => None,
    }
}

/// The webhook URL in order of precedence: the argument, then the environment
/// variable (each trimmed, when not blank), then the `.env` text.
pub open spec fn webhook_url_of(
    arg: Option<Seq<char>>,
    env_value: Option<Seq<char>>,
    env_file_text: Option<Seq<char>>,
) -> Option<Seq<char>> {
    if nonblank(arg) is Some {
        nonblank(arg)
    } else if nonblank(env_value) is Some {
        nonblank(env_value)
    } else {
        match env_file_text {
            Some(t) => env_file_value(t, webhook_key()),
            None => None,
        }
    }
}

fn trimmed_nonblank(s: Option<&str>) -> (r: Option<String>)
    ensures
        r.deep_view() == nonblank(opt_view(s)),
{
    match s {
        Some(u) => {
            let v = chars_of(u);
            let (a, b) = trim_range(&v, 0, v.len());
            assert(v@.subrange(0, v@.len() as int) =~= v@);
            if a < b {
                Some(string_of_range(u, &v, a, b))
            } else {
                None
            }
        },
        None => None,
    }
}

/// The `.env` file to read: the one given, else `.env` in the current directory.
pub fn env_file_path(args: &Args) -> (r: String)
    ensures
        args.env_file matches Some(p) ==> r@ == p@,
        args.env_file is None ==> r@ == seq!['.', 'e', 'n', 'v'],
{
    match &args.env_file {
        Some(p) => p.clone(),
        None => {
            proof {
                reveal_strlit(".env");
            }
            ".env".to_owned()
        },
    }
}

/// Resolves the webhook URL from `--webhook-url`, then the environment variable's
/// value `env_value`, then the text of the `.env` file (`None` when it could not be read).
pub fn resolve_webhook_url(args: &Args, env_value: Option<&str>, env_file_text: Option<&str>) -> (r:
    Option<String>)
    ensures
        r.deep_view() == webhook_url_of(
            args.webhook_url.deep_view(),
            opt_view(env_value),
            opt_view(env_file_text),
        ),
{
    let arg: Option<&str> = match &args.webhook_url {
        Some(u) => Some(u.as_str()),
        None => None,
    };
    assert(opt_view(arg) == args.webhook_url.deep_view());
    let from_arg = trimmed_nonblank(arg);
    if from_arg.is_some() {
        return from_arg;
    }
    let from_env = trimmed_nonblank(env_value);
    if from_env.is_some() {
        return from_env;
    }
    match env_file_text {
        Some(t) => parse_env_file(t, webhook_key_name()),
        None => None,
    }
}

/// The sources of the webhook URL rank as documented: a non-blank argument wins
/// over everything, a non-blank environment value over the `.env` file. So the
/// environment need not be read when the argument gives a URL, and the file need
/// not be read when an earlier source gives one: the result does not depend on them.
/// An unreadable file (`None`) with blank earlier sources gives no URL.
pub proof fn lemma_webhook_precedence(
    arg: Option<Seq<char>>,
    env_value: Option<Seq<char>>,
    env_file_text: Option<Seq<char>>,
)
    ensures
        nonblank(arg) is Some ==> webhook_url_of(arg, env_value, env_file_text) == nonblank(arg),
        nonblank(arg) is None && nonblank(env_value) is Some ==> webhook_url_of(
            arg,
            env_value,
            env_file_text,
        ) == nonblank(env_value),
        nonblank(arg) is Some ==> forall|e: Option<Seq<char>>, f: Option<Seq<char>>|
            #[trigger] webhook_url_of(arg, e, f) == webhook_url_of(arg, None, None),
        nonblank(arg) is Some || nonblank(env_value) is Some ==> forall|f: Option<Seq<char>>|
            #[trigger] webhook_url_of(arg, env_value, f) == webhook_url_of(arg, env_value, None),
        nonblank(arg) is None && nonblank(env_value) is None ==> webhook_url_of(
            arg,
            env_value,
            None,
        ) is None,
{
}

proof fn lemma_find_char_prefix(t1: Seq<char>, t2: Seq<char>, c: char)
    requires
        find_char(t1, c) < t1.len(),
    ensures
        find_char(t1 + t2, c) == find_char(t1, c),
{
    lemma_find_char(t1, c);
    let i = find_char(t1, c);
    let t = t1 + t2;
    assert(t[i] == t1[i]);
    assert forall|j: int| 0 <= j < i implies t[j] != c by {
        assert(t[j] == t1[j]);
    }
    lemma_find_char_at(t, c, i);
}

/// Text that ends a line (empty, or ending in `\n`) splits into lines on its own:
/// the lines of `t1 + t2` are those of `t1` followed by those of `t2`.
pub proof fn lemma_text_lines_append(t1: Seq<char>, t2: Seq<char>)
    requires
        t1.len() == 0 || t1.last() == '\n',
    ensures
        text_lines(t1 + t2) == text_lines(t1) + text_lines(t2),
    decreases t1.len(),
{
    if t1.len() == 0 {
        assert(t1 + t2 =~= t2);
        assert(text_lines(t1) =~= Seq::<Seq<char>>::empty());
        assert(text_lines(t1) + text_lines(t2) =~= text_lines(t2));
    } else {
        lemma_find_char(t1, '\n');
        assert(t1.contains('\n')) by {
            assert(t1[t1.len() - 1] == '\n');
        }
        let i = find_char(t1, '\n');
        lemma_find_char_prefix(t1, t2, '\n');
        let t = t1 + t2;
        assert(t.take(i) =~= t1.take(i));
        assert(t.skip(i + 1) =~= t1.skip(i + 1) + t2);
        let r1 = t1.skip(i + 1);
        assert(r1.len() == 0 || r1.last() == '\n');
        lemma_text_lines_append(r1, t2);
        assert(text_lines(t) == seq![strip_cr(t1.take(i))] + text_lines(r1 + t2));
        assert(text_lines(t1) == seq![strip_cr(t1.take(i))] + text_lines(r1));
        assert(text_lines(t) =~= text_lines(t1) + text_lines(t2));
    }
}

proof fn lemma_env_lookup_append(l1: Seq<Seq<char>>, l2: Seq<Seq<char>>, key: Seq<char>)
    requires
        env_lookup(l1, key) is Some,
    ensures
        env_lookup(l1 + l2, key) == env_lookup(l1, key),
    decreases l1.len(),
{
    assert((l1 + l2)[0] == l1[0]);
    if env_line_value(l1[0], key) is None {
        assert((l1 + l2).drop_first() =~= l1.drop_first() + l2);
        lemma_env_lookup_append(l1.drop_first(), l2, key);
    }
}

/// The first line that gives `key` a value decides: lines added after a text
/// in which `key` already has a value do not change it.
pub proof fn lemma_env_first_value_kept(t1: Seq<char>, t2: Seq<char>, key: Seq<char>)
    requires
        t1.len() == 0 || t1.last() == '\n',
        env_file_value(t1, key) is Some,
    ensures
        env_file_value(t1 + t2, key) == env_file_value(t1, key),
{
    lemma_text_lines_append(t1, t2);
    lemma_env_lookup_append(text_lines(t1), text_lines(t2), key);
}

/// A line that sets another key is passed over: when the trimmed part before the
/// first `=` of a line differs from `key`, the line says nothing of `key`, whatever
/// its value (an empty one included).
pub proof fn lemma_other_key_line_passed_over(line: Seq<char>, key: Seq<char>)
    requires
        trim(line).contains('='),
        trim(trim(line).take(find_char(trim(line), '='))) != key,
    ensures
        env_line_value(line, key) is None,
{
}

/// Lines for other keys do not change a lookup: putting such a line in front of a
/// `.env` text leaves the value of `key` as it was.
pub proof fn lemma_other_key_line_ignored(line: Seq<char>, rest: Seq<char>, key: Seq<char>)
    requires
        !line.contains('\n'),
        line.len() == 0 || line.last() != '\r',
        trim(line).contains('='),
        trim(trim(line).take(find_char(trim(line), '='))) != key,
    ensures
        env_file_value(line + seq!['\n'] + rest, key) == env_file_value(rest, key),
{
    let first = line + seq!['\n'];
    lemma_find_char(line, '\n');
    assert forall|j: int| 0 <= j < line.len() implies first[j] != '\n' by {
        assert(first[j] == line[j]);
        if line[j] == '\n' {
            assert(line.contains('\n'));
        }
    }
    lemma_find_char_at(first, '\n', line.len() as int);
    assert(first.take(line.len() as int) =~= line);
    assert(first.skip((line.len() + 1) as int) =~= Seq::<char>::empty());
    assert(text_lines(Seq::<char>::empty()) =~= Seq::<Seq<char>>::empty());
    assert(text_lines(first) =~= seq![line]);
    lemma_text_lines_append(first, rest);
    lemma_other_key_line_passed_over(line, key);
    let lines = text_lines(first + rest);
    assert(lines[0] == line);
    assert(lines.drop_first() =~= text_lines(rest));
}

} // verus!
