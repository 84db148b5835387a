use vstd::prelude::*;
use vstd::utf8::*;

verus! {

// ---------------------------------------------------------------------------
// Text helpers
// ---------------------------------------------------------------------------

/// Compares two string slices by their characters.
pub fn text_eq(a: &str, b: &str) -> (r: bool)
    ensures
        r == (a@ == b@),
{
    let x = a.to_owned();
    let y = b.to_owned();
    x == y
}

/// The characters of `s`, in order.
pub fn chars_of(s: &str) -> (v: Vec<char>)
    ensures
        v@ == s@,
{
    let mut v: Vec<char> = Vec::new();
    for c in it: s.chars()
        invariant
            v@ == it.seq().take(it.index() as int),
    {
        v.push(c);
    }
    v
}

/// Builds a `String` holding exactly the given characters.
/// Calls std's `FromIterator<char>` for `String`; the contract claims that the
/// string holds the characters of `chars` in order.
#[verifier::external_body]
pub fn string_from_chars(chars: &Vec<char>) -> (s: String)
    ensures
        s@ == chars@,
{
    chars.iter().collect()
}

/// Appends the characters of `s` to `out`.
pub fn push_str_chars(out: &mut Vec<char>, s: &str)
    ensures
        final(out)@ == old(out)@ + s@,
{
    let cs = chars_of(s);
    let mut i: usize = 0;
    while i < cs.len()
        invariant
            i <= cs@.len(),
            cs@ == s@,
            out@ == old(out)@ + cs@.take(i as int),
        decreases cs@.len() - i,
    {
        out.push(cs[i]);
        i = i + 1;
        assert(cs@.take(i as int) == cs@.take(i - 1 as int).push(cs@[i - 1 as int]));
    }
    assert(cs@.take(i as int) == cs@);
}

// ---------------------------------------------------------------------------
// UTF-8 widths
// ---------------------------------------------------------------------------

/// Number of bytes in the UTF-8 encoding of `c`.
pub open spec fn utf8_width(c: char) -> nat {
    encode_scalar(c as u32).len()
}

/// Number of bytes in the UTF-8 encoding of `s` (what `str::len` returns).
pub open spec fn utf8_len(s: Seq<char>) -> nat {
    encode_utf8(s).len()
}

/// Every character of `s` has a UTF-8 encoding of at most `avail` bytes.
pub open spec fn all_chars_fit(s: Seq<char>, avail: int) -> bool {
    forall|i: int| 0 <= i < s.len() ==> #[trigger] utf8_width(s[i]) <= avail
}

proof fn lemma_width_bounds(c: char)
    ensures
        1 <= utf8_width(c) <= 4,
{
}

/// UTF-8 length of a concatenation is the sum of the lengths.
pub proof fn lemma_utf8_len_concat(a: Seq<char>, b: Seq<char>)
    ensures
        utf8_len(a + b) == utf8_len(a) + utf8_len(b),
    decreases a.len(),
{
    if a.len() == 0 {
        assert(a + b == b);
    } else {
        assert((a + b).drop_first() == a.drop_first() + b);
        lemma_utf8_len_concat(a.drop_first(), b);
        assert((a + b)[0] == a[0]);
    }
}

/// The byte length of a prefix grows with the prefix.
proof fn lemma_utf8_len_prefix_mono(s: Seq<char>, j: int, k: int)
    requires
        0 <= j <= k <= s.len(),
    ensures
        utf8_len(s.take(j)) <= utf8_len(s.take(k)),
{
    assert(s.take(k) == s.take(j) + s.subrange(j, k));
    lemma_utf8_len_concat(s.take(j), s.subrange(j, k));
}

/// Executable UTF-8 width of a character.
pub fn char_width(c: char) -> (w: usize)
    ensures
        w == utf8_width(c),
        1 <= w <= 4,
{
    let u = c as u32;
    proof {
        char_is_scalar(c);
    }
    if u < 0x80 {
        1
    } else if u < 0x800 {
        2
    } else if u < 0x10000 {
        3
    } else {
        4
    }
}

// ---------------------------------------------------------------------------
// Command wrapping
// ---------------------------------------------------------------------------

/// Number of columns taken by the `"command : "` prefix.
pub const PREFIX_LEN: usize = 10;

/// The prefix of the first preview line: `"command : "`.
pub open spec fn command_prefix() -> Seq<char> {
    seq!['c', 'o', 'm', 'm', 'a', 'n', 'd', ' ', ':', ' ']
}

/// What separates two wrapped lines: a newline and ten spaces of indent.
pub open spec fn line_separator() -> Seq<char> {
    seq!['\n', ' ', ' ', ' ', ' ', ' ', ' ', ' ', ' ', ' ', ' ']
}

/// The longest prefix of `s` (counted in characters) whose UTF-8 encoding
/// fits in `avail` bytes.
pub open spec fn fit_count(s: Seq<char>, avail: int) -> nat
    decreases s.len(),
{
    if s.len() == 0 || utf8_width(s[0]) > avail {
        0
    } else {
        1 + fit_count(s.drop_first(), avail - utf8_width(s[0]))
    }
}

/// Index of the last space among the first `k` characters of `s`.
pub open spec fn last_space_before(s: Seq<char>, k: int) -> Option<int>
    decreases k,
{
    if k <= 0 {
        None
    } else if s[k - 1] == ' ' {
        Some(k - 1)
    } else {
        last_space_before(s, k - 1)
    }
}

/// Where a line that does not fit is cut: right after the fitting prefix when
/// a space follows it, else at the last space inside that prefix, else at the
/// end of the prefix (a hard break).
pub open spec fn break_index(s: Seq<char>, avail: int) -> int {
    let k = fit_count(s, avail) as int;
    if k < s.len() && s[k] == ' ' {
        k
    } else {
        match last_space_before(s, k) {
            Some(j) => j,
            None => k,
        }
    }
}

/// What is left after cutting `s` at `b`: exactly one separating space is dropped.
pub open spec fn after_break(s: Seq<char>, b: int) -> Seq<char> {
    let r = s.skip(b);
    if r.len() > 0 && r[0] == ' ' {
        r.drop_first()
    } else {
        r
    }
}

/// The lines that `s` is wrapped into when each may hold `avail` bytes.
pub open spec fn wrap_lines(s: Seq<char>, avail: int) -> Seq<Seq<char>>
    decreases s.len(),
{
    if s.len() == 0 {
        seq![]
    } else if utf8_len(s) <= avail {
        seq![s]
    } else {
        let b = break_index(s, avail);
        let r = after_break(s, b);
        if r.len() < s.len() {
            seq![s.take(b)] + wrap_lines(r, avail)
        } else {
            seq![s.take(b)]
        }
    }
}

/// The lines joined by `sep`.
pub open spec fn join_lines(lines: Seq<Seq<char>>, sep: Seq<char>) -> Seq<char>
    decreases lines.len(),
{
    if lines.len() == 0 {
        seq![]
    } else if lines.len() == 1 {
        lines[0]
    } else {
        join_lines(lines.drop_last(), sep) + sep + lines.last()
    }
}

/// The preview text of a command for a preview window `max_width` columns wide.
pub open spec fn wrapped_command(command: Seq<char>, max_width: int) -> Seq<char> {
    if max_width <= PREFIX_LEN {
        command_prefix() + command
    } else {
        command_prefix() + join_lines(
            wrap_lines(command, max_width - PREFIX_LEN),
            line_separator(),
        )
    }
}

/// The inputs on which wrapping makes progress: either no wrapping happens, or
/// every character fits on a line by itself.
pub open spec fn wrap_defined(command: Seq<char>, max_width: int) -> bool {
    max_width <= PREFIX_LEN || all_chars_fit(command, max_width - PREFIX_LEN)
}

proof fn lemma_utf8_len_single(c: char)
    ensures
        utf8_len(seq![c]) == utf8_width(c),
{
    reveal_with_fuel(encode_utf8, 2);
    assert(seq![c].drop_first() == Seq::<char>::empty());
}

proof fn lemma_fit_count_bound(s: Seq<char>, avail: int)
    requires
        avail >= 0,
    ensures
        fit_count(s, avail) <= s.len(),
        fit_count(s, avail) == s.len() <==> utf8_len(s) <= avail,
        utf8_len(s.take(fit_count(s, avail) as int)) <= avail,
    decreases s.len(),
{
    if s.len() == 0 {
        assert(s.take(0) == Seq::<char>::empty());
    } else {
        lemma_width_bounds(s[0]);
        let t = s.drop_first();
        if utf8_width(s[0]) > avail {
            assert(s.take(0) == Seq::<char>::empty());
            assert(utf8_len(s) == utf8_width(s[0]) + utf8_len(t));
        } else {
            lemma_fit_count_bound(t, avail - utf8_width(s[0]));
            let k = fit_count(s, avail) as int;
            assert(s.take(k) == seq![s[0]] + t.take(k - 1));
            lemma_utf8_len_concat(seq![s[0]], t.take(k - 1));
            lemma_utf8_len_single(s[0]);
            assert(utf8_len(s) == utf8_width(s[0]) + utf8_len(t));
        }
    }
}

proof fn lemma_fit_count_positive(s: Seq<char>, avail: int)
    requires
        s.len() > 0,
        utf8_width(s[0]) <= avail,
    ensures
        fit_count(s, avail) >= 1,
{
}

proof fn lemma_last_space(s: Seq<char>, k: int)
    ensures
        last_space_before(s, k) matches Some(j) ==> 0 <= j < k && s[j] == ' ',
    decreases k,
{
    if k > 0 && s[k - 1] != ' ' {
        lemma_last_space(s, k - 1);
    }
}

/// Facts about one wrapping step on a line that does not fit.
proof fn lemma_break_step(s: Seq<char>, avail: int)
    requires
        s.len() > 0,
        avail >= 1,
        all_chars_fit(s, avail),
        utf8_len(s) > avail,
    ensures
        0 <= break_index(s, avail) <= fit_count(s, avail) < s.len(),
        after_break(s, break_index(s, avail)).len() < s.len(),
        utf8_len(s.take(break_index(s, avail))) <= avail,
        all_chars_fit(after_break(s, break_index(s, avail)), avail),
{
    lemma_fit_count_bound(s, avail);
    lemma_fit_count_positive(s, avail);
    let k = fit_count(s, avail) as int;
    lemma_last_space(s, k);
    let b = break_index(s, avail);
    lemma_utf8_len_prefix_mono(s, b, k);
    let r = after_break(s, b);
    if b == 0 {
        assert(s[0] == ' ');
    }
    assert forall|i: int| 0 <= i < r.len() implies #[trigger] utf8_width(r[i]) <= avail by {
        if s.skip(b).len() > 0 && s.skip(b)[0] == ' ' {
            assert(r[i] == s[b + 1 + i]);
        } else {
            assert(r[i] == s[b + i]);
        }
    }
}

/// Every wrapped line fits in `avail` bytes.
pub proof fn lemma_wrapped_lines_fit(s: Seq<char>, avail: int)
    requires
        avail >= 1,
        all_chars_fit(s, avail),
    ensures
        forall|i: int|
            0 <= i < wrap_lines(s, avail).len() ==> utf8_len(#[trigger] wrap_lines(s, avail)[i])
                <= avail,
    decreases s.len(),
{
    if s.len() > 0 && utf8_len(s) > avail {
        lemma_break_step(s, avail);
        let b = break_index(s, avail);
        let r = after_break(s, b);
        lemma_wrapped_lines_fit(r, avail);
        let ls = wrap_lines(s, avail);
        assert forall|i: int| 0 <= i < ls.len() implies utf8_len(#[trigger] ls[i]) <= avail by {
            if i > 0 {
                assert(ls[i] == wrap_lines(r, avail)[i - 1]);
            }
        }
    }
}

/// `lines` put back together, with at most one space dropped at each break,
/// give exactly `s`.
pub open spec fn rejoins(lines: Seq<Seq<char>>, s: Seq<char>) -> bool
    decreases lines.len(),
{
    if lines.len() == 0 {
        s.len() == 0
    } else {
        let p = lines[0];
        &&& p.len() <= s.len()
        &&& s.take(p.len() as int) == p
        &&& (rejoins(lines.drop_first(), s.skip(p.len() as int)) || (p.len() < s.len()
            && s[p.len() as int] == ' ' && rejoins(lines.drop_first(), s.skip(p.len() + 1int))))
    }
}

/// Wrapping loses and adds nothing but the single spaces at line breaks.
pub proof fn lemma_wrapped_lines_rejoin(s: Seq<char>, avail: int)
    requires
        avail >= 1,
        all_chars_fit(s, avail),
    ensures
        rejoins(wrap_lines(s, avail), s),
    decreases s.len(),
{
    reveal_with_fuel(rejoins, 2);
    let ls = wrap_lines(s, avail);
    if s.len() == 0 {
    } else if utf8_len(s) <= avail {
        assert(ls == seq![s]);
        assert(ls.drop_first() == Seq::<Seq<char>>::empty());
        assert(s.take(s.len() as int) == s);
        assert(s.skip(s.len() as int).len() == 0);
    } else {
        lemma_break_step(s, avail);
        let b = break_index(s, avail);
        let r = after_break(s, b);
        lemma_wrapped_lines_rejoin(r, avail);
        assert(ls == seq![s.take(b)] + wrap_lines(r, avail));
        assert(ls[0] == s.take(b));
        assert(ls.drop_first() == wrap_lines(r, avail));
        assert(s.take(b).len() == b);
        if s.skip(b).len() > 0 && s.skip(b)[0] == ' ' {
            assert(r == s.skip(b + 1));
        } else {
            assert(r == s.skip(b));
        }
    }
}

/// A command whose bytes fit in the available width stays on one line.
pub proof fn lemma_short_command_one_line(s: Seq<char>, max_width: int)
    requires
        max_width > PREFIX_LEN,
        s.len() > 0,
        utf8_len(s) <= max_width - PREFIX_LEN,
    ensures
        wrapped_command(s, max_width) == command_prefix() + s,
{
    assert(wrap_lines(s, max_width - PREFIX_LEN) == seq![s]);
}

/// `fit_count` is the longest fitting prefix: every prefix that fits is no
/// longer, and one more character does not fit.
proof fn lemma_fit_count_max(s: Seq<char>, avail: int)
    ensures
        forall|j: int|
            0 <= j <= s.len() && utf8_len(#[trigger] s.take(j)) <= avail ==> j <= fit_count(
                s,
                avail,
            ),
        fit_count(s, avail) < s.len() ==> utf8_len(s.take(fit_count(s, avail) + 1int)) > avail,
    decreases s.len(),
{
    if s.len() > 0 {
        let t = s.drop_first();
        let w = utf8_width(s[0]);
        lemma_utf8_len_single(s[0]);
        assert forall|j: int| 1 <= j <= s.len() implies #[trigger] s.take(j) == seq![s[0]]
            + t.take(j - 1) && utf8_len(s.take(j)) == w + utf8_len(t.take(j - 1)) by {
            assert(s.take(j) =~= seq![s[0]] + t.take(j - 1));
            lemma_utf8_len_concat(seq![s[0]], t.take(j - 1));
        }
        lemma_fit_count_max(t, avail - w);
        if w <= avail {
            assert forall|j: int|
                0 <= j <= s.len() && utf8_len(#[trigger] s.take(j)) <= avail implies j
                <= fit_count(s, avail) by {
                if j >= 1 {
                    assert(utf8_len(t.take(j - 1)) <= avail - w);
                }
            }
        }
    }
}

/// The last space before `k` is the last one: every space before `k` is at or
/// before it.
proof fn lemma_last_space_max(s: Seq<char>, k: int)
    ensures
        forall|j: int|
            0 <= j < k && j < s.len() && s[j] == ' ' ==> (last_space_before(s, k) matches Some(
                j0,
            ) && j0 >= j),
    decreases k,
{
    if k > 0 && s[k - 1] != ' ' {
        lemma_last_space_max(s, k - 1);
    }
}

/// When a command does not fit, its first line is the longest part up to a
/// word boundary that fits: it fits, it is a prefix of the command, it is at
/// least as long as every prefix that fits and ends right before a space, and
/// when no such prefix exists (a word wider than the line) it is cut at the
/// last character that still fits.
pub proof fn lemma_first_line_longest_fit(s: Seq<char>, avail: int)
    requires
        avail >= 1,
        all_chars_fit(s, avail),
        utf8_len(s) > avail,
    ensures
        wrap_lines(s, avail).len() >= 1,
        s.take(wrap_lines(s, avail)[0].len() as int) == wrap_lines(s, avail)[0],
        utf8_len(wrap_lines(s, avail)[0]) <= avail,
        forall|j: int|
            0 <= j < s.len() && s[j] == ' ' && utf8_len(#[trigger] s.take(j)) <= avail
                ==> wrap_lines(s, avail)[0].len() >= j,
        (forall|j: int|
            0 <= j < s.len() && s[j] == ' ' ==> utf8_len(#[trigger] s.take(j)) > avail) ==> utf8_len(
            s.take(wrap_lines(s, avail)[0].len() + 1int),
        ) > avail,
{
    assert(s.len() > 0) by {
        if s.len() == 0 {
            assert(encode_utf8(s) == Seq::<u8>::empty());
        }
    }
    lemma_break_step(s, avail);
    lemma_fit_count_bound(s, avail);
    lemma_fit_count_max(s, avail);
    let k = fit_count(s, avail) as int;
    lemma_last_space_max(s, k);
    let b = break_index(s, avail);
    let ls = wrap_lines(s, avail);
    assert(ls[0] == s.take(b));
    assert(ls[0].len() == b);
    assert forall|j: int| 0 <= j < s.len() && s[j] == ' ' && utf8_len(#[trigger] s.take(j))
        <= avail implies b >= j by {
        assert(j <= k);
        if !(k < s.len() && s[k] == ' ') {
            assert(j < k);
        }
    }
    if forall|j: int| 0 <= j < s.len() && s[j] == ' ' ==> utf8_len(#[trigger] s.take(j)) > avail {
        if k < s.len() && s[k] == ' ' {
            assert(utf8_len(s.take(k)) > avail);
        }
        lemma_last_space(s, k);
        if let Some(j0) = last_space_before(s, k) {
            lemma_utf8_len_prefix_mono(s, j0, k);
            assert(utf8_len(s.take(j0)) > avail);
        }
        assert(b == k);
    }
}

/// Whether `wrap_command` is defined for `command` at `max_width`: no
/// wrapping happens, or every character fits on a line by itself.
pub fn wrap_width_ok(command: &str, max_width: usize) -> (r: bool)
    ensures
        r == wrap_defined(command@, max_width as int),
{
    if max_width <= PREFIX_LEN {
        return true;
    }
    let available = max_width - PREFIX_LEN;
    let cs = chars_of(command);
    let mut i: usize = 0;
    while i < cs.len()
        invariant
            i <= cs@.len(),
            cs@ == command@,
            max_width > PREFIX_LEN,
            available == max_width - PREFIX_LEN,
            forall|j: int| 0 <= j < i ==> #[trigger] utf8_width(cs@[j]) <= available,
        decreases cs@.len() - i,
    {
        if char_width(cs[i]) > available {
            assert(utf8_width(command@[i as int]) > available);
            return false;
        }
        i = i + 1;
    }
    true
}

/// The end of the longest run of characters from `start` whose encoding fits
/// in `available` bytes.
fn fit_end(chars: &Vec<char>, start: usize, available: usize) -> (end: usize)
    requires
        start <= chars@.len(),
    ensures
        start <= end <= chars@.len(),
        end - start == fit_count(chars@.skip(start as int), available as int),
{
    let n = chars.len();
    let mut i = start;
    let mut used: usize = 0;
    loop
        invariant
            n == chars@.len(),
            start <= i <= n,
            used <= available,
            fit_count(chars@.skip(start as int), available as int) == (i - start) + fit_count(
                chars@.skip(i as int),
                available - used,
            ),
        decreases n - i,
    {
        if i >= n {
            return i;
        }
        let w = char_width(chars[i]);
        assert(chars@.skip(i as int)[0] == chars@[i as int]);
        if w > available - used {
            return i;
        }
        assert(chars@.skip(i as int).drop_first() == chars@.skip(i + 1));
        used = used + w;
        i = i + 1;
    }
}

/// Index of the last space in `chars[start..end]`.
fn last_space(chars: &Vec<char>, start: usize, end: usize) -> (r: Option<usize>)
    requires
        start <= end <= chars@.len(),
    ensures
        r == (match last_space_before(chars@.skip(start as int), end - start) {
            Some(j) => Some((j + start) as usize),
            None => None::<usize>,
        }),
{
    let ghost s = chars@.skip(start as int);
    let mut k = end;
    while k > start
        invariant
            start <= k <= end <= chars@.len(),
            s == chars@.skip(start as int),
            last_space_before(s, end - start) == last_space_before(s, k - start),
        decreases k,
    {
        assert(s[k - 1 - start] == chars@[k - 1]);
        if chars[k - 1] == ' ' {
            return Some(k - 1);
        }
        k = k - 1;
    }
    None
}

/// Appends `chars[from..to]` to `out`.
fn push_range(out: &mut Vec<char>, chars: &Vec<char>, from: usize, to: usize)
    requires
        from <= to <= chars@.len(),
    ensures
        final(out)@ == old(out)@ + chars@.subrange(from as int, to as int),
{
    let mut i = from;
    while i < to
        invariant
            from <= i <= to <= chars@.len(),
            out@ == old(out)@ + chars@.subrange(from as int, i as int),
        decreases to - i,
    {
        out.push(chars[i]);
        i = i + 1;
        assert(chars@.subrange(from as int, i as int) == chars@.subrange(
            from as int,
            i - 1 as int,
        ).push(chars@[i - 1 as int]));
    }
}

proof fn lemma_join_push(lines: Seq<Seq<char>>, p: Seq<char>, sep: Seq<char>)
    ensures
        join_lines(lines.push(p), sep) == if lines.len() == 0 {
            p
        } else {
            join_lines(lines, sep) + sep + p
        },
{
    assert(lines.push(p).drop_last() == lines);
}

/// Wrap `command` so that each line fits within `max_width` columns.
///
/// The first line is prefixed with `"command : "` (10 chars); continuation lines
/// are indented with 10 spaces so everything lines up.  When `max_width` is at
/// most 10 (0 when no terminal size is known), the command is returned
/// unwrapped, still with the usual `"command : "` prefix.  Widths are counted
/// in bytes of UTF-8, and a line is never cut inside a character.
pub fn wrap_command(command: &str, max_width: usize) -> (res: String)
    requires
        wrap_defined(command@, max_width as int),
    ensures
        res@ == wrapped_command(command@, max_width as int),
{
    let mut out: Vec<char> = Vec::new();
    push_prefix(&mut out);
    let chars = chars_of(command);
    if max_width <= PREFIX_LEN {
        push_range(&mut out, &chars, 0, chars.len());
        assert(chars@.subrange(0, chars@.len() as int) == chars@);
        return string_from_chars(&out);
    }
    let available = max_width - PREFIX_LEN;
    let ghost avail = available as int;
    let n = chars.len();
    let mut start: usize = 0;
    let mut first = true;
    let ghost mut done: Seq<Seq<char>> = seq![];
    assert(chars@.skip(0) == chars@);
    while start < n
        invariant
            n == chars@.len(),
            chars@ == command@,
            avail == available,
            available >= 1,
            all_chars_fit(chars@, avail),
            start <= n,
            first == (done.len() == 0),
            done + wrap_lines(chars@.skip(start as int), avail) == wrap_lines(chars@, avail),
            out@ == command_prefix() + join_lines(done, line_separator()),
        decreases n - start,
    {
        let ghost s = chars@.skip(start as int);
        assert(all_chars_fit(s, avail)) by {
            assert forall|i: int| 0 <= i < s.len() implies #[trigger] utf8_width(s[i])
                <= avail by {
                assert(s[i] == chars@[start + i]);
            }
        }
        if !first {
            push_separator(&mut out);
        }
        first = false;
        let end = fit_end(&chars, start, available);
        proof {
            lemma_fit_count_bound(s, avail);
        }
        if end == n {
            push_range(&mut out, &chars, start, n);
            proof {
                assert(chars@.subrange(start as int, n as int) == s);
                assert(wrap_lines(s, avail) == seq![s]);
                lemma_join_push(done, s, line_separator());
                done = done.push(s);
                assert(chars@.skip(n as int).len() == 0);
                assert(wrap_lines(chars@.skip(n as int), avail) == Seq::<Seq<char>>::empty());
                assert(done + wrap_lines(chars@.skip(n as int), avail) == done);
            }
            start = n;
        } else {
        proof {
            lemma_break_step(s, avail);
        }
        let k = end - start;
        assert(s[k as int] == chars@[end as int]);
        let brk: usize = if chars[end] == ' ' {
            k
        } else {
            match last_space(&chars, start, end) {
                Some(j) => j - start,
                None => k,
            }
        };
        assert(brk == break_index(s, avail));
        push_range(&mut out, &chars, start, start + brk);
        let cut = start + brk;
        let ghost piece = s.take(brk as int);
        proof {
            assert(chars@.subrange(start as int, cut as int) == piece);
            lemma_join_push(done, piece, line_separator());
        }
        let next = if cut < n && chars[cut] == ' ' {
            cut + 1
        } else {
            cut
        };
        proof {
            assert(s.skip(brk as int) == chars@.skip(cut as int));
            if cut < n {
                assert(s.skip(brk as int)[0] == chars@[cut as int]);
            }
            assert(after_break(s, brk as int) == chars@.skip(next as int));
            assert(wrap_lines(s, avail) == seq![piece] + wrap_lines(chars@.skip(next as int), avail));
            assert(done + wrap_lines(s, avail) == done.push(piece) + wrap_lines(
                chars@.skip(next as int),
                avail,
            ));
            done = done.push(piece);
        }
        start = next;
        }
    }
    proof {
        assert(chars@.skip(n as int).len() == 0);
        assert(wrap_lines(chars@.skip(n as int), avail) == Seq::<Seq<char>>::empty());
        assert(done == wrap_lines(chars@, avail));
    }
    string_from_chars(&out)
}

/// Appends `"command : "` to `out`.
fn push_prefix(out: &mut Vec<char>)
    ensures
        final(out)@ == old(out)@ + command_prefix(),
{
    out.push('c');
    out.push('o');
    out.push('m');
    out.push('m');
    out.push('a');
    out.push('n');
    out.push('d');
    out.push(' ');
    out.push(':');
    out.push(' ');
    assert(out@ == old(out)@ + command_prefix());
}

/// Appends a newline and ten spaces of indent to `out`.
fn push_separator(out: &mut Vec<char>)
    ensures
        final(out)@ == old(out)@ + line_separator(),
{
    out.push('\n');
    let mut i: usize = 0;
    while i < 10
        invariant
            i <= 10,
            out@ == old(out)@ + seq!['\n'] + Seq::new(i as nat, |j: int| ' '),
        decreases 10 - i,
    {
        out.push(' ');
        i = i + 1;
        assert(Seq::new(i as nat, |j: int| ' ') == Seq::new((i - 1) as nat, |j: int| ' ').push(
            ' ',
        ));
    }
    assert(seq!['\n'] + Seq::new(10nat, |j: int| ' ') == line_separator());
}

} // verus!
