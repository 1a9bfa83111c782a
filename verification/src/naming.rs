//! Report file names: `<time>-<strategy>-<benchmark>[-<random>].html`.
//!
//! Which characters may appear in a file name is the business of `sanitize-filename` (with the
//! Windows rules, without its byte-based truncation, and `_` as the replacement); this module then
//! joins the words of the result with `_`, keeps at most [`MAX_PART_CHARS`] characters and drops
//! the `_` left over at the end.
use vstd::prelude::*;

use crate::options::opt_text;
use crate::text::{chars_of, join_texts, join_with, string_from_chars, texts};

verus! {

/// The extension of report files.
pub const REPORT_EXTENSION: &'static str = ".html";

/// How many characters of one part (strategy name, benchmark name) end up in a file name.
pub const MAX_PART_CHARS: usize = 32;

/// What `sanitize_filename::sanitize_with_options` makes of a text with the options
/// `windows: true`, `truncate: false`, `replacement: "_"`.
pub uninterp spec fn sanitized_file_name(part: Seq<char>) -> Seq<char>;

/// Whether a character may stand in a file name: none of `/ ? < > \ : * | "`, and no control
/// character (U+0000 to U+001F, U+0080 to U+009F).
pub open spec fn legal_file_name_char(c: char) -> bool {
    &&& c != '/' && c != '?' && c != '<' && c != '>' && c != '\\'
    &&& c != ':' && c != '*' && c != '|' && c != '"'
    &&& !(c as int <= 0x1F)
    &&& !(0x80 <= c as int <= 0x9F)
}

/// Whether every character of `s` may stand in a file name.
pub open spec fn legal_file_name(s: Seq<char>) -> bool {
    forall|i: int| 0 <= i < s.len() ==> legal_file_name_char(#[trigger] s[i])
}

/// Calls `sanitize_filename::sanitize_with_options` with the Windows rules on, its truncation off
/// and `_` as the replacement. The contract names the result: the crate decides it with regular
/// expressions (illegal and control characters, names made of dots, Windows reserved device names,
/// trailing dots and spaces), and that is not restated here; of it, the contract states what the
/// first two expressions guarantee: every illegal or control character has been replaced by `_`,
/// and the later steps only put `_` in.
#[verifier::external_body]
fn sanitize_with_options(part: &str) -> (r: String)
    ensures
        r@ == sanitized_file_name(part@),
        legal_file_name(r@),
{
    sanitize_filename::sanitize_with_options(
        part,
        sanitize_filename::Options { windows: true, truncate: false, replacement: "_" },
    )
}

/// Whether `c` has the Unicode `White_Space` property, which is what `char::is_whitespace` and
/// `str::split_whitespace` go by.
pub open spec fn is_white_space(c: char) -> bool {
    let v = c as int;
    ||| 0x09 <= v <= 0x0D
    ||| v == 0x20
    ||| v == 0x85
    ||| v == 0xA0
    ||| v == 0x1680
    ||| 0x2000 <= v <= 0x200A
    ||| v == 0x2028
    ||| v == 0x2029
    ||| v == 0x202F
    ||| v == 0x205F
    ||| v == 0x3000
}

/// Decides [`is_white_space`].
pub fn white_space(c: char) -> (r: bool)
    ensures
        r == is_white_space(c),
{
    let v = c as u32;
    (0x09 <= v && v <= 0x0D) || v == 0x20 || v == 0x85 || v == 0xA0 || v == 0x1680 || (0x2000 <= v
        && v <= 0x200A) || v == 0x2028 || v == 0x2029 || v == 0x202F || v == 0x205F || v == 0x3000
}

/// The maximal runs of non-white-space characters of `s`, in order.
pub open spec fn words(s: Seq<char>) -> Seq<Seq<char>>
    decreases s.len(),
{
    if s.len() == 0 {
        Seq::empty()
    } else {
        let w = words(s.drop_last());
        let c = s.last();
        if is_white_space(c) {
            w
        } else if s.len() >= 2 && !is_white_space(s[s.len() - 2]) {
            w.update(w.len() - 1, w.last().push(c))
        } else {
            w.push(seq![c])
        }
    }
}

/// At most [`MAX_PART_CHARS`] characters.
pub open spec fn capped(s: Seq<char>) -> Seq<char> {
    if s.len() > MAX_PART_CHARS {
        s.take(MAX_PART_CHARS as int)
    } else {
        s
    }
}

/// `s` without the `_` characters at its end.
pub open spec fn trim_trailing_underscores(s: Seq<char>) -> Seq<char>
    decreases s.len(),
{
    if s.len() > 0 && s.last() == '_' {
        trim_trailing_underscores(s.drop_last())
    } else {
        s
    }
}

/// The file-name part made of an already sanitized text: its words joined by `_`, capped, and
/// without trailing `_`.
pub open spec fn finished_part(sanitized: Seq<char>) -> Seq<char> {
    trim_trailing_underscores(capped(join_with(words(sanitized), seq!['_'])))
}

/// The file-name part of a text.
pub open spec fn file_name_part(part: Seq<char>) -> Seq<char> {
    finished_part(sanitized_file_name(part))
}

proof fn lemma_words_nonempty(s: Seq<char>)
    ensures
        forall|k: int| 0 <= k < words(s).len() ==> #[trigger] words(s)[k].len() > 0,
        s.len() > 0 && !is_white_space(s.last()) ==> words(s).len() > 0,
    decreases s.len(),
{
    if s.len() > 0 {
        let t = s.drop_last();
        lemma_words_nonempty(t);
        let w = words(t);
        let c = s.last();
        if is_white_space(c) {
        } else if s.len() >= 2 && !is_white_space(s[s.len() - 2]) {
            assert(t.last() == s[s.len() - 2]);
            let u = w.update(w.len() - 1, w.last().push(c));
            assert forall|k: int| 0 <= k < u.len() implies #[trigger] u[k].len() > 0 by {
                if k != w.len() - 1 {
                    assert(u[k] == w[k]);
                }
            }
        } else {
            let u = w.push(seq![c]);
            assert forall|k: int| 0 <= k < u.len() implies #[trigger] u[k].len() > 0 by {
                if k < w.len() {
                    assert(u[k] == w[k]);
                }
            }
        }
    }
}

proof fn lemma_join_nonempty(parts: Seq<Seq<char>>, sep: Seq<char>)
    requires
        forall|k: int| 0 <= k < parts.len() ==> #[trigger] parts[k].len() > 0,
    ensures
        join_with(parts, sep).len() > 0 <==> parts.len() > 0,
    decreases parts.len(),
{
    if parts.len() > 1 {
        lemma_join_nonempty(parts.drop_last(), sep);
    }
}

proof fn lemma_join_extend_last(parts: Seq<Seq<char>>, sep: Seq<char>, c: char)
    requires
        parts.len() > 0,
    ensures
        join_with(parts.update(parts.len() - 1, parts.last().push(c)), sep) == join_with(
            parts,
            sep,
        ).push(c),
{
    let t = parts.update(parts.len() - 1, parts.last().push(c));
    if parts.len() > 1 {
        assert(t.drop_last() =~= parts.drop_last());
    }
}

proof fn lemma_join_push(parts: Seq<Seq<char>>, sep: Seq<char>, w: Seq<char>)
    ensures
        join_with(parts.push(w), sep) == if parts.len() == 0 {
            w
        } else {
            join_with(parts, sep) + sep + w
        },
{
    assert(parts.push(w).drop_last() =~= parts);
}

/// Whether no character of `s` is white space.
pub open spec fn free_of_white_space(s: Seq<char>) -> bool {
    forall|i: int| 0 <= i < s.len() ==> !is_white_space(#[trigger] s[i])
}

proof fn lemma_words_free(s: Seq<char>)
    ensures
        forall|k: int| 0 <= k < words(s).len() ==> free_of_white_space(#[trigger] words(s)[k]),
    decreases s.len(),
{
    if s.len() > 0 {
        let t = s.drop_last();
        lemma_words_free(t);
        let w = words(t);
        let c = s.last();
        if is_white_space(c) {
        } else if s.len() >= 2 && !is_white_space(s[s.len() - 2]) {
            lemma_words_nonempty(t);
            assert(t.last() == s[s.len() - 2]);
            let u = w.update(w.len() - 1, w.last().push(c));
            assert forall|k: int| 0 <= k < u.len() implies free_of_white_space(#[trigger] u[k]) by {
                if k != w.len() - 1 {
                    assert(u[k] == w[k]);
                } else {
                    assert(free_of_white_space(w[k]));
                    assert forall|i: int| 0 <= i < u[k].len() implies !is_white_space(
                        #[trigger] u[k][i],
                    ) by {
                        if i < w[k].len() {
                            assert(u[k][i] == w[k][i]);
                        }
                    }
                }
            }
        } else {
            let u = w.push(seq![c]);
            assert forall|k: int| 0 <= k < u.len() implies free_of_white_space(#[trigger] u[k]) by {
                if k < w.len() {
                    assert(u[k] == w[k]);
                }
            }
        }
    }
}

proof fn lemma_join_free(parts: Seq<Seq<char>>, sep: Seq<char>)
    requires
        forall|k: int| 0 <= k < parts.len() ==> free_of_white_space(#[trigger] parts[k]),
        free_of_white_space(sep),
    ensures
        free_of_white_space(join_with(parts, sep)),
    decreases parts.len(),
{
    if parts.len() > 1 {
        let init = parts.drop_last();
        assert forall|k: int| 0 <= k < init.len() implies free_of_white_space(#[trigger] init[k]) by {
            assert(init[k] == parts[k]);
        }
        lemma_join_free(init, sep);
        let a = join_with(init, sep);
        let b = parts.last();
        assert(free_of_white_space(parts[parts.len() - 1]));
        let j = a + sep + b;
        assert forall|i: int| 0 <= i < j.len() implies !is_white_space(#[trigger] j[i]) by {
            if i < a.len() {
                assert(j[i] == a[i]);
            } else if i < a.len() + sep.len() {
                assert(j[i] == sep[i - a.len()]);
            } else {
                assert(j[i] == b[i - a.len() - sep.len()]);
            }
        }
    } else if parts.len() == 1 {
        assert(free_of_white_space(parts[0]));
    }
}

proof fn lemma_trim_prefix(s: Seq<char>)
    ensures
        trim_trailing_underscores(s).len() <= s.len(),
        trim_trailing_underscores(s) == s.take(trim_trailing_underscores(s).len() as int),
        trim_trailing_underscores(s).len() > 0 ==> trim_trailing_underscores(s).last() != '_',
    decreases s.len(),
{
    if s.len() > 0 && s.last() == '_' {
        lemma_trim_prefix(s.drop_last());
        let r = trim_trailing_underscores(s.drop_last());
        assert(s.drop_last().take(r.len() as int) =~= s.take(r.len() as int));
    } else {
        assert(s.take(s.len() as int) =~= s);
    }
}

/// A file-name part holds at most [`MAX_PART_CHARS`] characters, no white space, and does not end
/// with `_`.
pub proof fn lemma_finished_part_shape(sanitized: Seq<char>)
    ensures
        finished_part(sanitized).len() <= MAX_PART_CHARS,
        free_of_white_space(finished_part(sanitized)),
        finished_part(sanitized).len() > 0 ==> finished_part(sanitized).last() != '_',
{
    let joined = join_with(words(sanitized), seq!['_']);
    lemma_words_free(sanitized);
    assert(free_of_white_space(seq!['_']));
    lemma_join_free(words(sanitized), seq!['_']);
    let c = capped(joined);
    assert(free_of_white_space(c)) by {
        assert forall|i: int| 0 <= i < c.len() implies !is_white_space(#[trigger] c[i]) by {
            assert(c[i] == joined[i]);
        }
    }
    lemma_trim_prefix(c);
    let p = trim_trailing_underscores(c);
    assert forall|i: int| 0 <= i < p.len() implies !is_white_space(#[trigger] p[i]) by {
        assert(p[i] == c[i]);
    }
}

proof fn lemma_words_legal(s: Seq<char>)
    requires
        legal_file_name(s),
    ensures
        forall|k: int| 0 <= k < words(s).len() ==> legal_file_name(#[trigger] words(s)[k]),
    decreases s.len(),
{
    if s.len() > 0 {
        let t = s.drop_last();
        assert(legal_file_name(t)) by {
            assert forall|i: int| 0 <= i < t.len() implies legal_file_name_char(#[trigger] t[i]) by {
                assert(t[i] == s[i]);
            }
        }
        lemma_words_legal(t);
        let w = words(t);
        let c = s.last();
        assert(legal_file_name_char(s[s.len() - 1]));
        if is_white_space(c) {
        } else if s.len() >= 2 && !is_white_space(s[s.len() - 2]) {
            lemma_words_nonempty(t);
            assert(t.last() == s[s.len() - 2]);
            let u = w.update(w.len() - 1, w.last().push(c));
            assert forall|k: int| 0 <= k < u.len() implies legal_file_name(#[trigger] u[k]) by {
                if k != w.len() - 1 {
                    assert(u[k] == w[k]);
                } else {
                    assert(legal_file_name(w[k]));
                    assert forall|i: int| 0 <= i < u[k].len() implies legal_file_name_char(
                        #[trigger] u[k][i],
                    ) by {
                        if i < w[k].len() {
                            assert(u[k][i] == w[k][i]);
                        }
                    }
                }
            }
        } else {
            let u = w.push(seq![c]);
            assert forall|k: int| 0 <= k < u.len() implies legal_file_name(#[trigger] u[k]) by {
                if k < w.len() {
                    assert(u[k] == w[k]);
                }
            }
        }
    }
}

proof fn lemma_join_legal(parts: Seq<Seq<char>>, sep: Seq<char>)
    requires
        forall|k: int| 0 <= k < parts.len() ==> legal_file_name(#[trigger] parts[k]),
        legal_file_name(sep),
    ensures
        legal_file_name(join_with(parts, sep)),
    decreases parts.len(),
{
    if parts.len() > 1 {
        let init = parts.drop_last();
        assert forall|k: int| 0 <= k < init.len() implies legal_file_name(#[trigger] init[k]) by {
            assert(init[k] == parts[k]);
        }
        lemma_join_legal(init, sep);
        let a = join_with(init, sep);
        let b = parts.last();
        assert(legal_file_name(parts[parts.len() - 1]));
        let j = a + sep + b;
        assert forall|i: int| 0 <= i < j.len() implies legal_file_name_char(#[trigger] j[i]) by {
            if i < a.len() {
                assert(j[i] == a[i]);
            } else if i < a.len() + sep.len() {
                assert(j[i] == sep[i - a.len()]);
            } else {
                assert(j[i] == b[i - a.len() - sep.len()]);
            }
        }
    } else if parts.len() == 1 {
        assert(legal_file_name(parts[0]));
    }
}

/// Finishing a text whose characters may all stand in a file name keeps it so.
pub proof fn lemma_finished_part_legal(sanitized: Seq<char>)
    requires
        legal_file_name(sanitized),
    ensures
        legal_file_name(finished_part(sanitized)),
{
    let joined = join_with(words(sanitized), seq!['_']);
    lemma_words_legal(sanitized);
    assert(legal_file_name(seq!['_']));
    lemma_join_legal(words(sanitized), seq!['_']);
    let c = capped(joined);
    assert(legal_file_name(c)) by {
        assert forall|i: int| 0 <= i < c.len() implies legal_file_name_char(#[trigger] c[i]) by {
            assert(c[i] == joined[i]);
        }
    }
    lemma_trim_prefix(c);
    let p = trim_trailing_underscores(c);
    assert forall|i: int| 0 <= i < p.len() implies legal_file_name_char(#[trigger] p[i]) by {
        assert(p[i] == c[i]);
    }
}

/// Turns an already sanitized text into a file-name part: white space runs become one `_` (and
/// disappear at both ends), at most [`MAX_PART_CHARS`] characters are kept, and trailing `_` are
/// dropped. A text with nothing left comes back empty.
pub fn finish_part(sanitized: &str) -> (r: String)
    ensures
        r@ == finished_part(sanitized@),
{
    let c = chars_of(sanitized);
    let n = c.len();
    let mut out: Vec<char> = Vec::new();
    let mut pending = false;
    let mut i: usize = 0;
    while i < n
        invariant
            c@ == sanitized@,
            n == c@.len(),
            i <= n,
            out@ == join_with(words(c@.take(i as int)), seq!['_']),
            out@.len() > 0 <==> words(c@.take(i as int)).len() > 0,
            pending == (words(c@.take(i as int)).len() > 0 && i > 0 && is_white_space(c@[i - 1])),
        decreases n - i,
    {
        let ch = c[i];
        let ghost p = c@.take(i as int);
        let ghost q = c@.take(i + 1);
        proof {
            assert(q.drop_last() =~= p);
            assert(q.last() == ch);
            lemma_words_nonempty(p);
            lemma_words_nonempty(q);
            if i > 0 {
                assert(p.last() == c@[i - 1]);
                assert(q[q.len() - 2] == c@[i - 1]);
            }
        }
        if white_space(ch) {
            if out.len() > 0 {
                pending = true;
            }
        } else {
            if i > 0 && !white_space(c[i - 1]) {
                proof {
                    lemma_join_extend_last(words(p), seq!['_'], ch);
                }
                out.push(ch);
            } else {
                proof {
                    lemma_join_push(words(p), seq!['_'], seq![ch]);
                }
                if pending {
                    out.push('_');
                    pending = false;
                }
                out.push(ch);
                assert(out@ =~= join_with(words(q), seq!['_']));
            }
        }
        proof {
            lemma_words_nonempty(q);
            lemma_join_nonempty(words(q), seq!['_']);
        }
        i = i + 1;
    }
    assert(c@.take(n as int) =~= c@);
    let ghost joined = out@;
    if out.len() > MAX_PART_CHARS {
        out.truncate(MAX_PART_CHARS);
    }
    assert(out@ =~= capped(joined));
    while out.len() > 0 && out[out.len() - 1] == '_'
        invariant
            trim_trailing_underscores(out@) == trim_trailing_underscores(capped(joined)),
        decreases out@.len(),
    {
        let ghost before = out@;
        out.pop();
        assert(out@ =~= before.drop_last());
    }
    string_from_chars(out.as_slice())
}

/// Turns a piece of text into a part that can safely go into a file name (see [`finish_part`]);
/// a piece with nothing left comes back empty.
pub fn sanitize_part(part: &str) -> (r: String)
    ensures
        r@ == file_name_part(part@),
        legal_file_name(r@),
{
    let sanitized = sanitize_with_options(part);
    proof {
        lemma_finished_part_legal(sanitized@);
    }
    finish_part(sanitized.as_str())
}

/// Appends the file-name part of `name` to `parts`, unless it came back empty.
pub fn push_part(parts: &mut Vec<String>, name: &str)
    ensures
        texts(final(parts)@) == if file_name_part(name@).len() > 0 {
            texts(old(parts)@).push(file_name_part(name@))
        } else {
            texts(old(parts)@)
        },
{
    let part = sanitize_part(name);
    if !part.as_str().is_empty() {
        parts.push(part);
        assert(texts(parts@) =~= texts(old(parts)@).push(file_name_part(name@)));
    }
}

/// The file-name part of a name, as a list of zero or one part.
pub open spec fn optional_part(name: Seq<char>) -> Seq<Seq<char>> {
    if file_name_part(name).len() > 0 {
        seq![file_name_part(name)]
    } else {
        Seq::empty()
    }
}

/// The parts of a file-name stem: the time stamp, then the parts of the two display names that
/// are not empty.
pub open spec fn stem_parts(
    timestamp: Seq<char>,
    strategy_title: Seq<char>,
    benchmark_title: Option<Seq<char>>,
) -> Seq<Seq<char>> {
    seq![timestamp] + optional_part(strategy_title) + match benchmark_title {
        Some(b) => optional_part(b),
        None => Seq::empty(),
    }
}

/// A file-name stem: its parts joined by `-`.
pub open spec fn stem_spec(
    timestamp: Seq<char>,
    strategy_title: Seq<char>,
    benchmark_title: Option<Seq<char>>,
) -> Seq<char> {
    join_with(stem_parts(timestamp, strategy_title, benchmark_title), seq!['-'])
}

/// Whether a character is an ASCII digit.
pub open spec fn is_ascii_digit(c: char) -> bool {
    0x30 <= c as int <= 0x39
}

/// Whether a text has the shape chrono gives `%Y%m%d-%H%M%S`: the year (four digits, or a sign and
/// at least four digits outside the years 0 to 9999), two digits each for month and day, `-`, and
/// two digits each for hour, minute and second.
pub open spec fn timestamp_shape(t: Seq<char>) -> bool {
    &&& t.len() >= 15
    &&& t[t.len() - 7] == '-'
    &&& forall|i: int|
        t.len() - 11 <= i < t.len() && i != t.len() - 7 ==> is_ascii_digit(#[trigger] t[i])
    &&& year_shape(t.take(t.len() - 11))
}

/// Whether a text is a year as `%Y` writes it: four digits, or a sign and at least four digits.
pub open spec fn year_shape(y: Seq<char>) -> bool {
    ||| (y.len() == 4 && forall|i: int| 0 <= i < 4 ==> is_ascii_digit(#[trigger] y[i]))
    ||| (y.len() >= 5 && (y[0] == '+' || y[0] == '-') && forall|i: int|
        1 <= i < y.len() ==> is_ascii_digit(#[trigger] y[i]))
}

/// Formats the local time as `%Y%m%d-%H%M%S` with chrono. Which time it reads is the clock's
/// business and is not stated; chrono writes every field zero-padded to two digits and the year as
/// four digits (with a sign and at least four digits outside the years 0 to 9999), which the
/// contract states as the shape of the result.
#[verifier::external_body]
pub(crate) fn local_timestamp() -> (r: String)
    ensures
        timestamp_shape(r@),
{
    chrono::Local::now().format("%Y%m%d-%H%M%S").to_string()
}

/// The stem of a report file name for a given time stamp: `<time>-<strategy>-<benchmark>`,
/// skipping whichever display name has no file-name part.
pub fn stem_at(timestamp: &str, strategy_title: &str, benchmark_title: Option<&str>) -> (r: String)
    ensures
        r@ == stem_spec(timestamp@, strategy_title@, opt_text(benchmark_title)),
{
    let mut parts: Vec<String> = Vec::new();
    parts.push(timestamp.to_owned());
    push_part(&mut parts, strategy_title);
    if let Some(benchmark_title) = benchmark_title {
        push_part(&mut parts, benchmark_title);
    }
    assert(texts(parts@) =~= stem_parts(timestamp@, strategy_title@, opt_text(benchmark_title)));
    proof {
        reveal_strlit("-");
        assert("-"@ =~= seq!['-']);
    }
    join_texts(parts.as_slice(), "-")
}

/// The stem of a report file name at the current local time.
pub fn stem(strategy_title: &str, benchmark_title: Option<&str>) -> (r: String)
    ensures
        exists|t: Seq<char>|
            timestamp_shape(t) && r@ == #[trigger] stem_spec(t, strategy_title@, opt_text(benchmark_title)),
{
    let timestamp = local_timestamp();
    stem_at(timestamp.as_str(), strategy_title, benchmark_title)
}

/// The lowercase hexadecimal digit of a value below 16.
pub open spec fn hex_digit(d: int) -> char {
    if d < 10 {
        (d + 48) as char
    } else {
        (d + 87) as char
    }
}

/// The last `n` hexadecimal digits of `x`, most significant first.
pub open spec fn hex_digits(x: nat, n: nat) -> Seq<char>
    decreases n,
{
    if n == 0 {
        Seq::empty()
    } else {
        hex_digits(x / 16, (n - 1) as nat).push(hex_digit((x % 16) as int))
    }
}

fn hex_digit_char(d: u32) -> (r: char)
    requires
        d < 16,
    ensures
        r == hex_digit(d as int),
{
    let b = d as u8;
    if b < 10 {
        (b + 48) as char
    } else {
        (b + 87) as char
    }
}

fn hex_digit_chars(x: u32, n: usize) -> (r: Vec<char>)
    ensures
        r@ == hex_digits(x as nat, n as nat),
    decreases n,
{
    if n == 0 {
        Vec::new()
    } else {
        let mut r = hex_digit_chars(x / 16, n - 1);
        r.push(hex_digit_char(x % 16));
        r
    }
}

/// `x` as eight lowercase hexadecimal digits (`{:08x}`).
pub fn hex8(x: u32) -> (r: String)
    ensures
        r@ == hex_digits(x as nat, 8),
{
    let digits = hex_digit_chars(x, 8);
    string_from_chars(digits.as_slice())
}

/// Draws a random `u32` with fastrand; nothing is known of the value.
#[verifier::external_body]
fn random_u32() -> (r: u32) {
    fastrand::u32(..)
}

/// A complete report file name: the stem at the current local time, a random suffix of eight
/// hexadecimal digits, and `.html`.
pub fn file_name(strategy_title: &str, benchmark_title: Option<&str>) -> (r: String)
    ensures
        exists|t: Seq<char>, x: u32|
            timestamp_shape(t) && r@ == #[trigger] stem_spec(t, strategy_title@, opt_text(benchmark_title)) + "-"@
                + #[trigger] hex_digits(x as nat, 8) + REPORT_EXTENSION@,
{
    let mut name = stem(strategy_title, benchmark_title);
    let ghost t = choose|t: Seq<char>|
        timestamp_shape(t) && name@ == stem_spec(t, strategy_title@, opt_text(benchmark_title));
    let x = random_u32();
    let suffix = hex8(x);
    name.append("-");
    name.append(suffix.as_str());
    name.append(REPORT_EXTENSION);
    assert(name@ == stem_spec(t, strategy_title@, opt_text(benchmark_title)) + "-"@ + hex_digits(
        x as nat,
        8,
    ) + REPORT_EXTENSION@);
    name
}

} // verus!
