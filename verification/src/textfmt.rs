use vstd::prelude::*;

verus! {

use vstd::string::StrSliceExecFns;
use vstd::string::StringExecFns;

/// Replaces every occurrence of `pat` in `s` by `to`, scanning left to
/// right without overlap, as the trigger-command substitution does.
pub open spec fn spec_replace(s: Seq<char>, pat: Seq<char>, to: Seq<char>) -> Seq<char>
    decreases s.len(),
    when pat.len() >= 1
{
    if s.len() < pat.len() {
        s
    } else if s.take(pat.len() as int) == pat {
        to + spec_replace(s.skip(pat.len() as int), pat, to)
    } else {
        s.take(1) + spec_replace(s.skip(1), pat, to)
    }
}

/// Whether `pat` stands in `s` at position `i`.
fn matches_at(s: &str, i: usize, pat: &str) -> (r: bool)
    requires
        i + pat@.len() <= s@.len(),
        s@.len() <= usize::MAX,
    ensures
        r == (s@.subrange(i as int, i + pat@.len()) == pat@),
{
    let m = pat.unicode_len();
    let mut k: usize = 0;
    while k < m
        invariant
            k <= m,
            m == pat@.len(),
            i + pat@.len() <= s@.len(),
            s@.len() <= usize::MAX,
            forall|j: int| 0 <= j < k ==> s@[i + j] == pat@[j],
        decreases m - k,
    {
        if s.get_char(i + k) != pat.get_char(k) {
            return false;
        }
        k = k + 1;
    }
    proof {
        assert(s@.subrange(i as int, i + pat@.len()) =~= pat@);
    }
    true
}

/// Replaces every occurrence of `pat` in `s` by `to`.
pub fn replace_all(s: &str, pat: &str, to: &str) -> (r: String)
    requires
        pat@.len() >= 1,
    ensures
        r@ == spec_replace(s@, pat@, to@),
{
    let n = s.unicode_len();
    let patlen = pat.unicode_len();
    let mut out = String::new();
    let mut i: usize = 0;
    proof {
        assert(s@.skip(0) =~= s@);
        assert(out@ + spec_replace(s@, pat@, to@) =~= spec_replace(s@, pat@, to@));
    }
    if patlen <= n {
        while i <= n - patlen
            invariant
                patlen == pat@.len(),
                patlen >= 1,
                patlen <= n,
                n == s@.len(),
                i <= n,
                out@ + spec_replace(s@.skip(i as int), pat@, to@) == spec_replace(s@, pat@, to@),
            decreases n - i,
        {
            if matches_at(s, i, pat) {
                out.append(to);
                proof {
                    assert(s@.skip(i as int).take(patlen as int) =~= s@.subrange(
                        i as int,
                        i + patlen,
                    ));
                    assert(s@.skip(i as int).skip(patlen as int) =~= s@.skip(i + patlen));
                }
                i = i + patlen;
            } else {
                let piece = s.substring_char(i, i + 1);
                out.append(piece);
                proof {
                    assert(s@.skip(i as int).take(patlen as int) =~= s@.subrange(
                        i as int,
                        i + patlen,
                    ));
                    assert(s@.skip(i as int).take(1) =~= s@.subrange(i as int, i + 1));
                    assert(s@.skip(i as int).skip(1) =~= s@.skip(i + 1));
                }
                i = i + 1;
            }
        }
    }
    let tail = s.substring_char(i, n);
    out.append(tail);
    proof {
        assert(s@.skip(i as int) =~= s@.subrange(i as int, n as int));
    }
    out
}

/// The character of one decimal digit.
pub open spec fn spec_digit(d: int) -> char {
    if d == 0 {
        '0'
    } else if d == 1 {
        '1'
    } else if d == 2 {
        '2'
    } else if d == 3 {
        '3'
    } else if d == 4 {
        '4'
    } else if d == 5 {
        '5'
    } else if d == 6 {
        '6'
    } else if d == 7 {
        '7'
    } else if d == 8 {
        '8'
    } else {
        '9'
    }
}

/// The decimal spelling of a number, most significant digit first.
pub open spec fn spec_decimal(n: int) -> Seq<char>
    decreases n,
    when n >= 0
{
    if n < 10 {
        seq![spec_digit(n)]
    } else {
        spec_decimal(n / 10) + seq![spec_digit(n % 10)]
    }
}

/// One decimal digit as a string.
fn digit_str(d: usize) -> (r: &'static str)
    requires
        d < 10,
    ensures
        r@ == seq![spec_digit(d as int)],
{
    proof {
        reveal_strlit("0");
        reveal_strlit("1");
        reveal_strlit("2");
        reveal_strlit("3");
        reveal_strlit("4");
        reveal_strlit("5");
        reveal_strlit("6");
        reveal_strlit("7");
        reveal_strlit("8");
        reveal_strlit("9");
    }
    let r = match d {
        0 => "0",
        1 => "1",
        2 => "2",
        3 => "3",
        4 => "4",
        5 => "5",
        6 => "6",
        7 => "7",
        8 => "8",
        9 => "9",
        _ => vstd::pervasive::unreached(),
    };
    proof {
        assert(r@ =~= seq![spec_digit(d as int)]);
    }
    r
}

/// The decimal spelling of `n`.
pub fn usize_to_string(n: usize) -> (r: String)
    ensures
        r@ == spec_decimal(n as int),
    decreases n,
{
    if n < 10 {
        String::from_str(digit_str(n))
    } else {
        let mut s = usize_to_string(n / 10);
        s.append(digit_str(n % 10));
        s
    }
}

/// The decimal spelling of `n`, left-padded with zeros to `width`
/// characters.  A spelling already that wide stands unchanged.
pub open spec fn spec_padded(n: int, width: int) -> Seq<char> {
    let d = spec_decimal(n);
    if d.len() >= width {
        d
    } else {
        Seq::new((width - d.len()) as nat, |i: int| '0') + d
    }
}

/// Formats `n` zero-padded to `width` characters.
pub fn padded_number(n: usize, width: usize) -> (r: String)
    ensures
        r@ == spec_padded(n as int, width as int),
{
    proof {
        reveal_strlit("0");
    }
    let digits = usize_to_string(n);
    let dl = digits.as_str().unicode_len();
    let mut out = String::new();
    let mut k: usize = dl;
    while k < width
        invariant
            dl <= k,
            dl == spec_decimal(n as int).len(),
            out@ == Seq::new((k - dl) as nat, |i: int| '0'),
            k <= width || k == dl,
        decreases width - k,
    {
        out.append("0");
        proof {
            reveal_strlit("0");
            assert(out@ =~= Seq::new((k + 1 - dl) as nat, |i: int| '0'));
        }
        k = k + 1;
    }
    out.append(digits.as_str());
    proof {
        if dl >= width {
            assert(out@ =~= spec_padded(n as int, width as int));
        } else {
            assert(out@ =~= spec_padded(n as int, width as int));
        }
    }
    out
}

/// The name of one output file in the rotation: the file's sequence
/// number, zero-padded to the configured suffix length, with the
/// extension reattached.
pub fn split_file_name(index: usize, suffix_len: usize, ext: &str) -> (r: String)
    ensures
        r@ == spec_padded(index as int, suffix_len as int) + ext@,
{
    let mut name = padded_number(index, suffix_len);
    name.append(ext);
    name
}

/// The file-name part of a path: the text after the last separator, the
/// whole path when it has none.
pub open spec fn spec_basename(s: Seq<char>) -> Seq<char>
    decreases s.len(),
{
    if s.len() == 0 {
        s
    } else if s.last() == '/' {
        Seq::empty()
    } else {
        spec_basename(s.drop_last()) + seq![s.last()]
    }
}

/// Without a separator, the whole path is its own base name.
proof fn lemma_basename_none(s: Seq<char>)
    requires
        forall|j: int| 0 <= j < s.len() ==> s[j] != '/',
    ensures
        spec_basename(s) == s,
    decreases s.len(),
{
    if s.len() > 0 {
        lemma_basename_none(s.drop_last());
        assert(spec_basename(s) =~= s);
    } else {
        assert(spec_basename(s) =~= s);
    }
}

/// With a last separator at `k`, the base name is everything after it.
proof fn lemma_basename_skip(s: Seq<char>, k: int)
    requires
        0 <= k < s.len(),
        s[k] == '/',
        forall|j: int| k < j < s.len() ==> s[j] != '/',
    ensures
        spec_basename(s) == s.skip(k + 1),
    decreases s.len(),
{
    if k == s.len() - 1 {
        assert(spec_basename(s) =~= s.skip(k + 1));
    } else {
        lemma_basename_skip(s.drop_last(), k);
        assert(s.drop_last().skip(k + 1) =~= s.skip(k + 1).drop_last());
        assert(spec_basename(s) =~= s.skip(k + 1));
    }
}

/// The file-name part of a path, used for the `{/}` substitution of the
/// trigger command.
pub fn file_name(path: &str) -> (r: String)
    ensures
        r@ == spec_basename(path@),
{
    let n = path.unicode_len();
    let mut start: usize = 0;
    let mut i: usize = 0;
    while i < n
        invariant
            i <= n,
            n == path@.len(),
            start <= i,
            start == 0 ==> forall|j: int| 0 <= j < i ==> path@[j] != '/',
            start > 0 ==> path@[start - 1] == '/' && (forall|j: int|
                start <= j < i ==> path@[j] != '/'),
        decreases n - i,
    {
        if path.get_char(i) == '/' {
            start = i + 1;
        }
        i = i + 1;
    }
    let tail = path.substring_char(start, n);
    proof {
        if start == 0 {
            lemma_basename_none(path@);
            assert(path@.subrange(0, n as int) =~= path@);
        } else {
            lemma_basename_skip(path@, start - 1);
            assert(path@.subrange(start as int, n as int) =~= path@.skip(start as int));
        }
    }
    String::from_str(tail)
}

/// The `{}` placeholder of a trigger template: the finished file's path.
pub open spec fn spec_path_pattern() -> Seq<char> {
    seq!['{', '}']
}

/// The `{/}` placeholder: the finished file's base name.
pub open spec fn spec_name_pattern() -> Seq<char> {
    seq!['{', '/', '}']
}

/// The `{rows}` placeholder: the finished file's record count.
pub open spec fn spec_rows_pattern() -> Seq<char> {
    seq!['{', 'r', 'o', 'w', 's', '}']
}

/// A trigger template with its placeholders substituted: `{}` by the
/// file's path, `{/}` by its base name, `{rows}` by its record count, in
/// that order.
pub open spec fn spec_render(
    template: Seq<char>,
    path: Seq<char>,
    name: Seq<char>,
    rows: int,
) -> Seq<char> {
    spec_replace(
        spec_replace(spec_replace(template, spec_path_pattern(), path), spec_name_pattern(), name),
        spec_rows_pattern(),
        spec_decimal(rows),
    )
}

/// Renders the trigger command to run after a rotation: the template
/// with the finished file's path, base name and record count substituted.
/// Executing the command is the embedding program's business; its outcome
/// never blocks the write pipeline.
pub fn render_trigger(template: &str, full_path: &str, file_name: &str, rows: usize) -> (r: String)
    ensures
        r@ == spec_render(template@, full_path@, file_name@, rows as int),
{
    proof {
        reveal_strlit("{}");
        reveal_strlit("{/}");
        reveal_strlit("{rows}");
        assert("{}"@ =~= spec_path_pattern());
        assert("{/}"@ =~= spec_name_pattern());
        assert("{rows}"@ =~= spec_rows_pattern());
    }
    let a = replace_all(template, "{}", full_path);
    let b = replace_all(a.as_str(), "{/}", file_name);
    let rows_text = usize_to_string(rows);
    replace_all(b.as_str(), "{rows}", rows_text.as_str())
}

} // verus!
