use vstd::prelude::*;
use crate::config::{Config, ServerConfig, opt_text, opt_str_text};
use crate::text::{chars_of, string_from_chars, push_str_chars};

verus! {

// ---------------------------------------------------------------------------
// Decimal numbers
// ---------------------------------------------------------------------------

/// The character of decimal digit `d`.
pub open spec fn digit_char(d: nat) -> char {
    if d == 0 {
        '0'
    } else if d == 1 {
        '1'
    } else if d == 2 {
        '2'
    } else if d == 3 {
        '3'
    } else if d == 4 {
        '4'
    } else if d == 5 {
        '5'
    } else if d == 6 {
        '6'
    } else if d == 7 {
        '7'
    } else if d == 8 {
        '8'
    } else {
        '9'
    }
}

/// The value of a decimal digit character.
pub open spec fn digit_value(c: char) -> nat {
    (c as u32 - '0' as u32) as nat
}

/// Whether `c` is one of `0`..`9`.
pub open spec fn is_digit(c: char) -> bool {
    '0' <= c && c <= '9'
}

/// `n` written in decimal, without leading zeros.
pub open spec fn decimal_text(n: nat) -> Seq<char>
    decreases n,
{
    if n < 10 {
        seq![digit_char(n)]
    } else {
        decimal_text(n / 10).push(digit_char(n % 10))
    }
}

/// `n` written in decimal, with a leading `-` when negative.
pub open spec fn signed_decimal_text(n: int) -> Seq<char> {
    if n < 0 {
        seq!['-'] + decimal_text((-n) as nat)
    } else {
        decimal_text(n as nat)
    }
}

fn digit(d: u64) -> (c: char)
    requires
        d < 10,
    ensures
        c == digit_char(d as nat),
{
    if d == 0 {
        '0'
    } else if d == 1 {
        '1'
    } else if d == 2 {
        '2'
    } else if d == 3 {
        '3'
    } else if d == 4 {
        '4'
    } else if d == 5 {
        '5'
    } else if d == 6 {
        '6'
    } else if d == 7 {
        '7'
    } else if d == 8 {
        '8'
    } else {
        '9'
    }
}

fn push_decimal(out: &mut Vec<char>, n: u64)
    ensures
        final(out)@ == old(out)@ + decimal_text(n as nat),
    decreases n,
{
    if n >= 10 {
        push_decimal(out, n / 10);
    }
    out.push(digit(n % 10));
    proof {
        if n >= 10 {
            assert(decimal_text(n as nat) == decimal_text((n / 10) as nat).push(
                digit_char((n % 10) as nat),
            ));
        }
    }
}

/// `n` in decimal (what `usize::to_string` gives).
pub fn usize_text(n: usize) -> (s: String)
    ensures
        s@ == decimal_text(n as nat),
{
    let mut out: Vec<char> = Vec::new();
    push_decimal(&mut out, n as u64);
    string_from_chars(&out)
}

/// `n` in decimal, with a `-` when negative (what `i32::to_string` gives).
pub fn i32_text(n: i32) -> (s: String)
    ensures
        s@ == signed_decimal_text(n as int),
{
    let mut out: Vec<char> = Vec::new();
    if n < 0 {
        out.push('-');
        let m: i64 = n as i64;
        push_decimal(&mut out, (-m) as u64);
    } else {
        push_decimal(&mut out, n as u64);
    }
    string_from_chars(&out)
}

/// The value of a sequence of decimal digits.
pub open spec fn digits_value(ds: Seq<char>) -> nat
    decreases ds.len(),
{
    if ds.len() == 0 {
        0
    } else {
        digits_value(ds.drop_last()) * 10 + digit_value(ds.last())
    }
}

/// Every character of `ds` is a decimal digit.
pub open spec fn all_digits(ds: Seq<char>) -> bool {
    forall|i: int| 0 <= i < ds.len() ==> is_digit(#[trigger] ds[i])
}

/// The digits of a count: `s` without one leading `+`.
pub open spec fn unsigned_digits(s: Seq<char>) -> Seq<char> {
    if s.len() > 0 && s[0] == '+' {
        s.drop_first()
    } else {
        s
    }
}

/// What `usize::from_str` accepts: an optional `+`, then at least one decimal
/// digit and nothing else, with a value that fits in `usize`.
pub open spec fn parse_usize(s: Seq<char>) -> Option<nat> {
    let ds = unsigned_digits(s);
    if s.len() == 0 || ds.len() == 0 || !all_digits(ds) || digits_value(ds) > usize::MAX {
        None
    } else {
        Some(digits_value(ds))
    }
}

proof fn lemma_digits_value_prefix(ds: Seq<char>, i: int, j: int)
    requires
        0 <= i <= j <= ds.len(),
        all_digits(ds),
    ensures
        digits_value(ds.take(i)) <= digits_value(ds.take(j)),
    decreases j - i,
{
    if i < j {
        lemma_digits_value_prefix(ds, i, j - 1);
        assert(ds.take(j).drop_last() == ds.take(j - 1));
    }
}

/// The value of the digits `cs[start..]`, if they are all digits and the
/// value fits in `usize`.
fn parse_digits(cs: &Vec<char>, start: usize) -> (r: Option<usize>)
    requires
        start <= cs@.len(),
    ensures
        r matches Some(v) ==> all_digits(cs@.skip(start as int)) && v == digits_value(
            cs@.skip(start as int),
        ),
        r is None ==> !all_digits(cs@.skip(start as int)) || digits_value(cs@.skip(start as int))
            > usize::MAX,
{
    let ghost ds = cs@.skip(start as int);
    let mut value: usize = 0;
    let mut i = start;
    assert(ds.take(0) == Seq::<char>::empty());
    while i < cs.len()
        invariant
            start <= i <= cs@.len(),
            ds == cs@.skip(start as int),
            forall|k: int| 0 <= k < i - start ==> is_digit(#[trigger] ds[k]),
            value == digits_value(ds.take(i - start)),
        decreases cs@.len() - i,
    {
        let c = cs[i];
        assert(ds[i - start] == c);
        if !('0' <= c && c <= '9') {
            assert(!is_digit(ds[i - start]));
            return None;
        }
        let d = (c as u32 - '0' as u32) as usize;
        assert(ds.take(i - start + 1).drop_last() == ds.take(i - start));
        if value > (usize::MAX - d) / 10 {
            proof {
                assert(digits_value(ds.take(i - start + 1)) == value * 10 + d);
                assert(value * 10 + d > usize::MAX) by (nonlinear_arith)
                    requires
                        value > (usize::MAX - d) / 10,
                        d <= 9,
                ;
                if all_digits(ds) {
                    lemma_digits_value_prefix(ds, i - start + 1, ds.len() as int);
                    assert(ds.take(ds.len() as int) == ds);
                }
            }
            return None;
        }
        assert(value * 10 + d <= usize::MAX) by (nonlinear_arith)
            requires
                value <= (usize::MAX - d) / 10,
                d <= 9,
        ;
        value = value * 10 + d;
        i = i + 1;
    }
    assert(ds.take(ds.len() as int) == ds);
    Some(value)
}

/// Parses a decimal count the way `usize::from_str` does.
pub fn parse_count(s: &str) -> (r: Option<usize>)
    ensures
        r matches Some(v) ==> parse_usize(s@) == Some(v as nat),
        r is None ==> parse_usize(s@) is None,
{
    let cs = chars_of(s);
    if cs.len() == 0 {
        return None;
    }
    let start: usize = if cs[0] == '+' {
        1
    } else {
        0
    };
    assert(unsigned_digits(s@) == cs@.skip(start as int));
    if start == cs.len() {
        return None;
    }
    parse_digits(&cs, start)
}

/// The total from an `X-Total-Count` header, when the header is present and
/// holds a count.
pub fn parse_total_count(header: Option<&str>) -> (r: Option<usize>)
    ensures
        header is None ==> r is None,
        header matches Some(h) ==> (match parse_usize(h@) {
            Some(v) => r == Some(v as usize),
            None => r is None,
        }),
{
    match header {
        Some(h) => parse_count(h),
        None => None,
    }
}

// ---------------------------------------------------------------------------
// Requests
// ---------------------------------------------------------------------------

/// `s` without its trailing slashes.
pub open spec fn trim_trailing_slashes(s: Seq<char>) -> Seq<char>
    decreases s.len(),
{
    if s.len() > 0 && s.last() == '/' {
        trim_trailing_slashes(s.drop_last())
    } else {
        s
    }
}

/// The server URL without trailing slashes (the base of every request).
pub fn base_url(url: &str) -> (r: String)
    ensures
        r@ == trim_trailing_slashes(url@),
{
    let cs = chars_of(url);
    let mut end = cs.len();
    assert(cs@.take(end as int) == cs@);
    while end > 0 && cs[end - 1] == '/'
        invariant
            end <= cs@.len(),
            trim_trailing_slashes(cs@) == trim_trailing_slashes(cs@.take(end as int)),
        decreases end,
    {
        assert(cs@.take(end as int).drop_last() == cs@.take(end - 1));
        end = end - 1;
    }
    let mut out: Vec<char> = Vec::new();
    let mut i: usize = 0;
    while i < end
        invariant
            i <= end <= cs@.len(),
            out@ == cs@.take(i as int),
        decreases end - i,
    {
        out.push(cs[i]);
        i = i + 1;
        assert(cs@.take(i as int) == cs@.take(i - 1).push(cs@[i - 1]));
    }
    string_from_chars(&out)
}

/// HTTP basic authentication: a user and an optional password.
pub struct BasicAuth {
    pub user: String,
    pub password: Option<String>,
}

/// The credentials sent for the server: the user with its password when both
/// are configured, the user alone when only it is, none without a user.
pub open spec fn auth_of(server: ServerConfig) -> Option<(Seq<char>, Option<Seq<char>>)> {
    match server.basic_auth_user {
        Some(u) => Some((u@, opt_text(server.basic_auth_password))),
        None => None,
    }
}

/// The view of optional credentials.
pub open spec fn auth_view(a: Option<BasicAuth>) -> Option<(Seq<char>, Option<Seq<char>>)> {
    match a {
        Some(b) => Some((b.user@, opt_text(b.password))),
        None => None,
    }
}

fn clone_opt(s: &Option<String>) -> (r: Option<String>)
    ensures
        opt_text(r) == opt_text(*s),
{
    match s {
        Some(t) => Some(t.clone()),
        None => None,
    }
}

/// The basic-auth credentials to attach to each request.
pub fn basic_auth(server: &ServerConfig) -> (r: Option<BasicAuth>)
    ensures
        auth_view(r) == auth_of(*server),
{
    match &server.basic_auth_user {
        Some(user) => Some(BasicAuth { user: user.clone(), password: clone_opt(&server.basic_auth_password) }),
        None => None,
    }
}

/// A name and a value of a query string or a form.
pub open spec fn pair_view(p: (String, String)) -> (Seq<char>, Seq<char>) {
    (p.0@, p.1@)
}

/// The names and values of a list of pairs.
pub open spec fn pairs_view(ps: Seq<(String, String)>) -> Seq<(Seq<char>, Seq<char>)> {
    ps.map_values(|p: (String, String)| pair_view(p))
}

/// A request to record a command.
pub struct PostRequest {
    pub url: String,
    pub form: Vec<(String, String)>,
    pub auth: Option<BasicAuth>,
}

/// The form that records `command`, run on `hostname` in `pwd`.
pub open spec fn post_form(hostname: Seq<char>, pwd: Seq<char>, command: Seq<char>) -> Seq<
    (Seq<char>, Seq<char>),
> {
    seq![("hostname"@, hostname), ("working_directory"@, pwd), ("command"@, command)]
}

fn pair(name: &str, value: &str) -> (p: (String, String))
    ensures
        pair_view(p) == (name@, value@),
{
    (name.to_owned(), value.to_owned())
}

/// The record form holds three fields, hostname, working directory and
/// command, each exactly as given and each once.
pub proof fn lemma_post_form_fields(hostname: Seq<char>, pwd: Seq<char>, command: Seq<char>)
    ensures
        post_form(hostname, pwd, command).len() == 3,
        post_form(hostname, pwd, command).contains(("hostname"@, hostname)),
        post_form(hostname, pwd, command).contains(("working_directory"@, pwd)),
        post_form(hostname, pwd, command).contains(("command"@, command)),
        forall|i: int|
            0 <= i < 3 && (#[trigger] post_form(hostname, pwd, command)[i]).0 == "command"@
                ==> post_form(hostname, pwd, command)[i].1 == command,
        forall|i: int|
            0 <= i < 3 && (#[trigger] post_form(hostname, pwd, command)[i]).0 == "hostname"@
                ==> post_form(hostname, pwd, command)[i].1 == hostname,
        forall|i: int|
            0 <= i < 3 && (#[trigger] post_form(hostname, pwd, command)[i]).0
                == "working_directory"@ ==> post_form(hostname, pwd, command)[i].1 == pwd,
{
    reveal_strlit("hostname");
    reveal_strlit("working_directory");
    reveal_strlit("command");
    let f = post_form(hostname, pwd, command);
    assert(f[0] == ("hostname"@, hostname));
    assert(f[1] == ("working_directory"@, pwd));
    assert(f[2] == ("command"@, command));
    assert("hostname"@.len() == 8);
    assert("command"@.len() == 7);
    assert("working_directory"@.len() == 17);
    assert("hostname"@ != "command"@);
    assert("working_directory"@ != "command"@);
    assert("working_directory"@ != "hostname"@);
}

/// The request that posts a new history record to the server: a form
/// POSTed to the base URL, with the configured credentials.
pub fn post_history(cfg: &Config, hostname: &str, pwd: &str, command: &str) -> (req: PostRequest)
    ensures
        req.url@ == trim_trailing_slashes(cfg.server.url@),
        pairs_view(req.form@) == post_form(hostname@, pwd@, command@),
        auth_view(req.auth) == auth_of(cfg.server),
{
    let mut form: Vec<(String, String)> = Vec::new();
    form.push(pair("hostname", hostname));
    form.push(pair("working_directory", pwd));
    form.push(pair("command", command));
    assert(pairs_view(form@) =~= post_form(hostname@, pwd@, command@));
    PostRequest {
        url: base_url(cfg.server.url.as_str()),
        form,
        auth: basic_auth(&cfg.server),
    }
}

/// A request for one page of history.
pub struct PageRequest {
    pub url: String,
    pub query: Vec<(String, String)>,
    pub auth: Option<BasicAuth>,
}

/// The query of the page of `limit` records from `offset`, narrowed to the
/// configured host and to the directory `pwd` when given.
pub open spec fn page_query(
    hostname: Option<Seq<char>>,
    pwd: Option<Seq<char>>,
    offset: nat,
    limit: nat,
) -> Seq<(Seq<char>, Seq<char>)> {
    let base = seq![("limit"@, decimal_text(limit)), ("offset"@, decimal_text(offset))];
    let with_host = match hostname {
        Some(h) => base.push(("hostname"@, h)),
        None => base,
    };
    match pwd {
        Some(p) => with_host.push(("pwd"@, p)),
        None => with_host,
    }
}

/// The page query asks for `limit` records from `offset`; it filters by host
/// exactly when a host is configured and by directory exactly when one is
/// given, each filter independent of the other.
pub proof fn lemma_page_query_filters(
    hostname: Option<Seq<char>>,
    pwd: Option<Seq<char>>,
    offset: nat,
    limit: nat,
)
    ensures
        page_query(hostname, pwd, offset, limit).len() == 2 + (if hostname is Some {
            1int
        } else {
            0int
        }) + (if pwd is Some {
            1int
        } else {
            0int
        }),
        page_query(hostname, pwd, offset, limit)[0] == ("limit"@, decimal_text(limit)),
        page_query(hostname, pwd, offset, limit)[1] == ("offset"@, decimal_text(offset)),
        hostname matches Some(h) ==> page_query(hostname, pwd, offset, limit).contains(
            ("hostname"@, h),
        ),
        pwd matches Some(p) ==> page_query(hostname, pwd, offset, limit).contains(("pwd"@, p)),
        hostname is None ==> forall|i: int|
            0 <= i < page_query(hostname, pwd, offset, limit).len() ==> (#[trigger] page_query(
                hostname,
                pwd,
                offset,
                limit,
            )[i]).0 != "hostname"@,
        pwd is None ==> forall|i: int|
            0 <= i < page_query(hostname, pwd, offset, limit).len() ==> (#[trigger] page_query(
                hostname,
                pwd,
                offset,
                limit,
            )[i]).0 != "pwd"@,
{
    reveal_strlit("limit");
    reveal_strlit("offset");
    reveal_strlit("hostname");
    reveal_strlit("pwd");
    assert("limit"@.len() == 5);
    assert("offset"@.len() == 6);
    assert("hostname"@.len() == 8);
    assert("pwd"@.len() == 3);
    assert("limit"@ != "pwd"@);
    assert("offset"@ != "pwd"@);
    assert("hostname"@ != "pwd"@);
    assert("limit"@ != "hostname"@);
    assert("offset"@ != "hostname"@);
    let q = page_query(hostname, pwd, offset, limit);
    let base = seq![("limit"@, decimal_text(limit)), ("offset"@, decimal_text(offset))];
    let with_host = match hostname {
        Some(h) => base.push(("hostname"@, h)),
        None => base,
    };
    if let Some(h) = hostname {
        assert(with_host[2] == ("hostname"@, h));
        assert(q[2] == ("hostname"@, h));
    }
    if let Some(p) = pwd {
        assert(q[q.len() - 1] == ("pwd"@, p));
    }
}

/// The request for the page of `limit` records starting at `offset`.
pub fn page_request(cfg: &Config, pwd: Option<&str>, offset: usize, limit: usize) -> (req:
    PageRequest)
    ensures
        req.url@ == trim_trailing_slashes(cfg.server.url@),
        pairs_view(req.query@) == page_query(
            opt_text(cfg.search.hostname),
            opt_str_text(pwd),
            offset as nat,
            limit as nat,
        ),
        auth_view(req.auth) == auth_of(cfg.server),
{
    let mut query: Vec<(String, String)> = Vec::new();
    query.push(("limit".to_owned(), usize_text(limit)));
    query.push(("offset".to_owned(), usize_text(offset)));
    let ghost q0 = query@;
    match &cfg.search.hostname {
        Some(h) => query.push(pair("hostname", h.as_str())),
        None => {},
    }
    let ghost q1 = query@;
    match pwd {
        Some(p) => query.push(pair("pwd", p)),
        None => {},
    }
    proof {
        let base = seq![("limit"@, decimal_text(limit as nat)), ("offset"@, decimal_text(offset as nat))];
        assert(pairs_view(q0) =~= base);
        let with_host = match opt_text(cfg.search.hostname) {
            Some(h) => base.push(("hostname"@, h)),
            None => base,
        };
        assert(pairs_view(q1) =~= with_host);
        assert(pairs_view(query@) =~= page_query(
            opt_text(cfg.search.hostname),
            opt_str_text(pwd),
            offset as nat,
            limit as nat,
        ));
    }
    PageRequest { url: base_url(cfg.server.url.as_str()), query, auth: basic_auth(&cfg.server) }
}

/// The URL that deletes the record `id`.
pub fn delete_url(cfg: &Config, id: i32) -> (url: String)
    ensures
        url@ == trim_trailing_slashes(cfg.server.url@) + seq!['/'] + signed_decimal_text(id as int),
{
    let base = base_url(cfg.server.url.as_str());
    let mut out = chars_of(base.as_str());
    out.push('/');
    let n = i32_text(id);
    push_str_chars(&mut out, n.as_str());
    string_from_chars(&out)
}

// ---------------------------------------------------------------------------
// Pagination
// ---------------------------------------------------------------------------

/// The offset of the page that follows the page fetched at `fetched`: the next
/// multiple of the page size, while it is below the total that the first
/// response announced. Without a total there is no further page.
pub open spec fn next_offset(fetched: nat, page_size: nat, total: Option<usize>) -> Option<nat> {
    match total {
        Some(t) => if fetched + page_size < t {
            Some(fetched + page_size)
        } else {
            None
        },
        None => None,
    }
}

/// The offset of the page to fetch after the page at `fetched`, if any.
pub fn next_page_offset(fetched: usize, page_size: usize, total: Option<usize>) -> (r: Option<
    usize,
>)
    requires
        fetched + page_size <= usize::MAX,
    ensures
        r matches Some(o) ==> next_offset(fetched as nat, page_size as nat, total) == Some(o as nat),
        r is None ==> next_offset(fetched as nat, page_size as nat, total) is None,
{
    match total {
        Some(t) => if fetched + page_size < t {
            Some(fetched + page_size)
        } else {
            None
        },
        None => None,
    }
}

/// The offsets fetched, starting with the page at `from`.
pub open spec fn offsets_from(from: nat, page_size: nat, total: usize) -> Seq<nat>
    decreases total - from,
{
    if page_size > 0 && from + page_size < total {
        seq![from] + offsets_from(from + page_size, page_size, total)
    } else {
        seq![from]
    }
}

/// With a total announced, the pages fetched start at 0, page_size,
/// 2 * page_size, ...: consecutive, without gap or overlap, and together they
/// reach the total (the last page starts below it, or is the first page).
pub proof fn lemma_pages_cover_total(page_size: nat, total: usize)
    requires
        page_size > 0,
    ensures
        forall|k: int|
            0 <= k < offsets_from(0, page_size, total).len() ==> #[trigger] offsets_from(
                0,
                page_size,
                total,
            )[k] == k * page_size,
        offsets_from(0, page_size, total).len() * page_size >= total,
        offsets_from(0, page_size, total).len() == 1 || (offsets_from(0, page_size, total).len()
            - 1) * page_size < total,
        forall|k: int|
            0 <= k < offsets_from(0, page_size, total).len() - 1 ==> next_offset(
                #[trigger] offsets_from(0, page_size, total)[k],
                page_size,
                Some(total),
            ) == Some(offsets_from(0, page_size, total)[k + 1]),
        next_offset(offsets_from(0, page_size, total).last(), page_size, Some(total)) is None,
{
    lemma_offsets_from(0, 0, page_size, total);
    lemma_offsets_step(0, page_size, total);
}

proof fn lemma_offsets_step(from: nat, page_size: nat, total: usize)
    requires
        page_size > 0,
    ensures
        forall|k: int|
            0 <= k < offsets_from(from, page_size, total).len() - 1 ==> next_offset(
                #[trigger] offsets_from(from, page_size, total)[k],
                page_size,
                Some(total),
            ) == Some(offsets_from(from, page_size, total)[k + 1]),
        next_offset(offsets_from(from, page_size, total).last(), page_size, Some(total)) is None,
    decreases total - from,
{
    let os = offsets_from(from, page_size, total);
    if from + page_size < total {
        lemma_offsets_step(from + page_size, page_size, total);
        let rest = offsets_from(from + page_size, page_size, total);
        assert(os == seq![from] + rest);
        assert(rest[0] == from + page_size) by {
            reveal_with_fuel(offsets_from, 2);
        }
        assert forall|k: int| 0 <= k < os.len() - 1 implies next_offset(
            #[trigger] os[k],
            page_size,
            Some(total),
        ) == Some(os[k + 1]) by {
            if k > 0 {
                assert(os[k] == rest[k - 1]);
            }
        }
        assert(os.last() == rest.last());
    }
}

proof fn lemma_offsets_from(m: nat, from: nat, page_size: nat, total: usize)
    requires
        page_size > 0,
        from == m * page_size,
    ensures
        forall|k: int|
            0 <= k < offsets_from(from, page_size, total).len() ==> #[trigger] offsets_from(
                from,
                page_size,
                total,
            )[k] == (m + k) * page_size,
        (m + offsets_from(from, page_size, total).len()) * page_size >= total,
        offsets_from(from, page_size, total).len() == 1 || (m + offsets_from(
            from,
            page_size,
            total,
        ).len() - 1) * page_size < total,
    decreases total - from,
{
    let os = offsets_from(from, page_size, total);
    if from + page_size < total {
        assert(from + page_size == (m + 1) * page_size) by (nonlinear_arith)
            requires
                from == m * page_size,
        ;
        lemma_offsets_from(m + 1, from + page_size, page_size, total);
        let rest = offsets_from(from + page_size, page_size, total);
        assert(os == seq![from] + rest);
        assert forall|k: int| 0 <= k < os.len() implies #[trigger] os[k] == (m + k) * page_size by {
            if k > 0 {
                assert(os[k] == rest[k - 1]);
            }
        }
    } else {
        assert((m + 1) * page_size == from + page_size) by (nonlinear_arith)
            requires
                from == m * page_size,
        ;
    }
}

} // verus!
