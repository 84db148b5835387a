use vstd::prelude::*;
use crate::text::{
    push_str_chars, string_from_chars, wrap_command, wrap_defined, wrapped_command,
    chars_of,
};

verus! {

// ---------------------------------------------------------------------------
// Instants
// ---------------------------------------------------------------------------

/// Earliest second that chrono's `DateTime<Utc>` can hold (-262143-01-01T00:00:00Z).
pub const MIN_UTC_SECS: i64 = -8_334_601_228_800;

/// Latest second that chrono's `DateTime<Utc>` can hold (262142-12-31T23:59:59Z).
pub const MAX_UTC_SECS: i64 = 8_210_266_876_799;

/// The pairs (seconds since the UNIX epoch, nanoseconds) that name an instant:
/// the second lies in chrono's range, and nanoseconds of a second beyond
/// 999_999_999 are only used to express a leap second (a second ending a minute).
pub open spec fn utc_time_valid(secs: i64, nanos: u32) -> bool {
    &&& MIN_UTC_SECS <= secs <= MAX_UTC_SECS
    &&& (nanos < 1_000_000_000 || (nanos < 2_000_000_000 && secs % 60 == 59))
}

/// The text chrono gives for the instant with the format `%Y-%m-%d %H:%M:%S UTC`.
pub uninterp spec fn utc_time_text(secs: i64, nanos: u32) -> Seq<char>;

/// Formats an instant as `%Y-%m-%d %H:%M:%S UTC`.
/// Calls chrono's `DateTime::<Utc>::from_timestamp` and renders the instant it
/// returns with its `format`; the contract claims that an instant comes back
/// exactly for the valid pairs, and that its text depends on the pair alone.
#[verifier::external_body]
fn format_utc_time(secs: i64, nanos: u32) -> (res: Option<String>)
    ensures
        res is Some <==> utc_time_valid(secs, nanos),
        res matches Some(s) ==> s@ == utc_time_text(secs, nanos),
{
    match chrono::DateTime::from_timestamp(secs, nanos) {
        Some(t) => Some(t.format("%Y-%m-%d %H:%M:%S UTC").to_string()),
        None => None,
    }
}

/// Whether second `secs` is the last second of a minute.
fn ends_minute(secs: i64) -> (r: bool)
    requires
        MIN_UTC_SECS <= secs <= MAX_UTC_SECS,
    ensures
        r == (secs % 60 == 59),
{
    let off = (secs - MIN_UTC_SECS) as u64;
    proof {
        vstd::arithmetic::div_mod::lemma_mod_multiples_vanish(138_910_020_480, secs as int, 60);
        assert(off as int == 60 * 138_910_020_480 + secs);
    }
    off % 60 == 59
}

/// An instant in UTC, as seconds since the UNIX epoch and nanoseconds.
#[derive(Debug, Clone, Copy)]
pub struct UtcTime {
    secs: i64,
    nanos: u32,
}

impl View for UtcTime {
    type V = (i64, u32);

    closed spec fn view(&self) -> (i64, u32) {
        (self.secs, self.nanos)
    }
}

impl UtcTime {
    #[verifier::type_invariant]
    spec fn valid(self) -> bool {
        utc_time_valid(self.secs, self.nanos)
    }

    /// The instant `secs` seconds and `nanos` nanoseconds after the UNIX epoch,
    /// if it can be represented.
    pub fn new(secs: i64, nanos: u32) -> (res: Option<UtcTime>)
        ensures
            res is Some <==> utc_time_valid(secs, nanos),
            res matches Some(t) ==> t@ == (secs, nanos),
    {
        if MIN_UTC_SECS <= secs && secs <= MAX_UTC_SECS && (nanos < 1_000_000_000 || (nanos
            < 2_000_000_000 && ends_minute(secs))) {
            Some(UtcTime { secs, nanos })
        } else {
            None
        }
    }

    /// Seconds since the UNIX epoch.
    pub fn secs(&self) -> (s: i64)
        ensures
            s == self@.0,
    {
        self.secs
    }

    /// Nanoseconds within the second.
    pub fn nanos(&self) -> (n: u32)
        ensures
            n == self@.1,
    {
        self.nanos
    }

    /// The instant as `%Y-%m-%d %H:%M:%S UTC`.
    pub fn to_text(&self) -> (s: String)
        ensures
            s@ == utc_time_text(self@.0, self@.1),
    {
        proof {
            use_type_invariant(self);
        }
        match format_utc_time(self.secs, self.nanos) {
            Some(s) => s,
            None => String::new(),
        }
    }
}

// ---------------------------------------------------------------------------
// History records
// ---------------------------------------------------------------------------

/// One command recorded on the server.
pub struct History {
    pub id: i32,
    pub hostname: String,
    pub working_directory: Option<String>,
    pub command: String,
    pub created_at: UtcTime,
    pub updated_at: UtcTime,
}

/// The commands of `records`, as a set.
pub open spec fn commands_of(records: Seq<History>) -> Set<Seq<char>> {
    Set::new(|c: Seq<char>| exists|i: int| 0 <= i < records.len() && records[i].command@ == c)
}

/// The records whose command is neither in `seen` nor on an earlier record,
/// in the order given.
pub open spec fn dedup_commands(seen: Set<Seq<char>>, records: Seq<History>) -> Seq<History>
    decreases records.len(),
{
    if records.len() == 0 {
        seq![]
    } else {
        let c = records[0].command@;
        if seen.contains(c) {
            dedup_commands(seen, records.drop_first())
        } else {
            seq![records[0]] + dedup_commands(seen.insert(c), records.drop_first())
        }
    }
}

proof fn lemma_commands_of_first(records: Seq<History>)
    requires
        records.len() > 0,
    ensures
        commands_of(records) == commands_of(records.drop_first()).insert(records[0].command@),
{
    let t = records.drop_first();
    assert forall|c: Seq<char>| #[trigger] commands_of(records).contains(c) implies commands_of(
        t,
    ).insert(records[0].command@).contains(c) by {
        let j = choose|j: int| 0 <= j < records.len() && #[trigger] records[j].command@ == c;
        if j > 0 {
            assert(t[j - 1] == records[j]);
        }
    }
    assert forall|c: Seq<char>| #[trigger]
        commands_of(t).insert(records[0].command@).contains(c) implies commands_of(
        records,
    ).contains(c) by {
        if c != records[0].command@ {
            let j = choose|j: int| 0 <= j < t.len() && #[trigger] t[j].command@ == c;
            assert(records[j + 1] == t[j]);
        }
    }
    assert(commands_of(records) =~= commands_of(t).insert(records[0].command@));
}

/// Filtering pages one after another gives what filtering them all at once
/// gives: streamed de-duplication equals de-duplication of the whole history.
pub proof fn lemma_dedup_streams(seen: Set<Seq<char>>, a: Seq<History>, b: Seq<History>)
    ensures
        dedup_commands(seen, a + b) == dedup_commands(seen, a) + dedup_commands(
            seen.union(commands_of(a)),
            b,
        ),
    decreases a.len(),
{
    if a.len() == 0 {
        assert(a + b =~= b);
        assert(commands_of(a) =~= Set::<Seq<char>>::empty());
        assert(seen.union(commands_of(a)) =~= seen);
        assert(dedup_commands(seen, a) + dedup_commands(seen, b) =~= dedup_commands(seen, b));
    } else {
        let c = a[0].command@;
        let t = a.drop_first();
        assert((a + b)[0] == a[0]);
        assert((a + b).drop_first() =~= t + b);
        lemma_commands_of_first(a);
        if seen.contains(c) {
            lemma_dedup_streams(seen, t, b);
            assert(seen.union(commands_of(a)) =~= seen.union(commands_of(t)));
        } else {
            lemma_dedup_streams(seen.insert(c), t, b);
            assert(seen.insert(c).union(commands_of(t)) =~= seen.union(commands_of(a)));
            assert(seq![a[0]] + (dedup_commands(seen.insert(c), t) + dedup_commands(
                seen.union(commands_of(a)),
                b,
            )) =~= (seq![a[0]] + dedup_commands(seen.insert(c), t)) + dedup_commands(
                seen.union(commands_of(a)),
                b,
            ));
        }
    }
}

/// After de-duplication no command appears twice, none of the commands
/// already seen appears, and every other command of the input does appear.
pub proof fn lemma_dedup_unique(seen: Set<Seq<char>>, records: Seq<History>)
    ensures
        forall|i: int, j: int|
            0 <= i < j < dedup_commands(seen, records).len() ==> (#[trigger] dedup_commands(
                seen,
                records,
            )[i]).command@ != (#[trigger] dedup_commands(seen, records)[j]).command@,
        forall|i: int|
            0 <= i < dedup_commands(seen, records).len() ==> !seen.contains(
                (#[trigger] dedup_commands(seen, records)[i]).command@,
            ),
        commands_of(dedup_commands(seen, records)) == commands_of(records).difference(seen),
    decreases records.len(),
{
    let out = dedup_commands(seen, records);
    if records.len() == 0 {
        assert(commands_of(out) =~= Set::<Seq<char>>::empty());
        assert(commands_of(records) =~= Set::<Seq<char>>::empty());
        assert(commands_of(records).difference(seen) =~= Set::<Seq<char>>::empty());
    } else {
        let c = records[0].command@;
        let t = records.drop_first();
        lemma_commands_of_first(records);
        if seen.contains(c) {
            lemma_dedup_unique(seen, t);
            assert(commands_of(records).difference(seen) =~= commands_of(t).difference(seen));
        } else {
            let rest = dedup_commands(seen.insert(c), t);
            lemma_dedup_unique(seen.insert(c), t);
            assert(out == seq![records[0]] + rest);
            assert forall|i: int, j: int| 0 <= i < j < out.len() implies (#[trigger] out[i]).command@
                != (#[trigger] out[j]).command@ by {
                assert(out[j] == rest[j - 1]);
                if i > 0 {
                    assert(out[i] == rest[i - 1]);
                }
            }
            assert forall|i: int| 0 <= i < out.len() implies !seen.contains(
                (#[trigger] out[i]).command@,
            ) by {
                if i > 0 {
                    assert(out[i] == rest[i - 1]);
                }
            }
            assert(out.len() > 0);
            lemma_commands_of_first(out);
            assert(out.drop_first() =~= rest);
            assert(commands_of(out) =~= commands_of(records).difference(seen));
        }
    }
}

/// Each record kept is the first record of its command in the input (the
/// most recently used one, as the server sends newest first).
pub proof fn lemma_dedup_keeps_first(seen: Set<Seq<char>>, records: Seq<History>)
    ensures
        forall|j: int|
            0 <= j < dedup_commands(seen, records).len() ==> exists|i: int|
                0 <= i < records.len() && #[trigger] dedup_commands(seen, records)[j]
                    == records[i] && !seen.contains(records[i].command@) && forall|k: int|
                    0 <= k < i ==> #[trigger] records[k].command@ != records[i].command@,
    decreases records.len(),
{
    let out = dedup_commands(seen, records);
    if records.len() > 0 {
        let c = records[0].command@;
        let t = records.drop_first();
        if seen.contains(c) {
            lemma_dedup_keeps_first(seen, t);
            let rest = dedup_commands(seen, t);
            assert(out == rest);
            assert forall|j: int| 0 <= j < out.len() implies exists|i: int|
                0 <= i < records.len() && #[trigger] out[j] == records[i] && !seen.contains(
                    records[i].command@,
                ) && forall|k: int| 0 <= k < i ==> #[trigger] records[k].command@
                    != records[i].command@ by {
                assert(out[j] == rest[j]);
                let i0 = choose|i: int|
                    0 <= i < t.len() && #[trigger] rest[j] == t[i] && !seen.contains(t[i].command@)
                        && forall|k: int| 0 <= k < i ==> #[trigger] t[k].command@ != t[i].command@;
                assert(records[i0 + 1] == t[i0]);
                assert forall|k: int| 0 <= k < i0 + 1 implies #[trigger] records[k].command@
                    != records[i0 + 1].command@ by {
                    if k > 0 {
                        assert(records[k] == t[k - 1]);
                    }
                }
            }
        } else {
            let s2 = seen.insert(c);
            let rest = dedup_commands(s2, t);
            lemma_dedup_keeps_first(s2, t);
            assert(out == seq![records[0]] + rest);
            assert forall|j: int| 0 <= j < out.len() implies exists|i: int|
                0 <= i < records.len() && #[trigger] out[j] == records[i] && !seen.contains(
                    records[i].command@,
                ) && forall|k: int| 0 <= k < i ==> #[trigger] records[k].command@
                    != records[i].command@ by {
                if j == 0 {
                    assert(out[0] == records[0]);
                } else {
                    assert(out[j] == rest[j - 1]);
                    let i0 = choose|i: int|
                        0 <= i < t.len() && #[trigger] rest[j - 1] == t[i] && !s2.contains(
                            t[i].command@,
                        ) && forall|k: int| 0 <= k < i ==> #[trigger] t[k].command@
                            != t[i].command@;
                    assert(records[i0 + 1] == t[i0]);
                    assert forall|k: int| 0 <= k < i0 + 1 implies #[trigger] records[k].command@
                        != records[i0 + 1].command@ by {
                        if k > 0 {
                            assert(records[k] == t[k - 1]);
                        }
                    }
                }
            }
        }
    }
}

/// Remembers the commands already handed out, so that a stream of pages shows
/// each command once: the first record of a command (the most recent one,
/// since the server sends newest first) is the one kept.
pub struct CommandFilter {
    seen: Vec<String>,
}

impl View for CommandFilter {
    type V = Set<Seq<char>>;

    closed spec fn view(&self) -> Set<Seq<char>> {
        Set::new(|c: Seq<char>| exists|i: int| 0 <= i < self.seen@.len() && self.seen@[i]@ == c)
    }
}

impl CommandFilter {
    /// A filter that has seen nothing yet.
    pub fn new() -> (f: CommandFilter)
        ensures
            f@ == Set::<Seq<char>>::empty(),
    {
        let f = CommandFilter { seen: Vec::new() };
        assert(f@ =~= Set::<Seq<char>>::empty());
        f
    }

    /// Whether `command` has been seen.
    pub fn has_seen(&self, command: &String) -> (r: bool)
        ensures
            r == self@.contains(command@),
    {
        let mut i: usize = 0;
        while i < self.seen.len()
            invariant
                i <= self.seen@.len(),
                forall|j: int| 0 <= j < i ==> self.seen@[j]@ != command@,
            decreases self.seen@.len() - i,
        {
            if self.seen[i] == *command {
                return true;
            }
            i = i + 1;
        }
        false
    }

    /// Marks `command` as seen.
    fn mark(&mut self, command: String)
        ensures
            final(self)@ == old(self)@.insert(command@),
    {
        self.seen.push(command);
        assert forall|c: Seq<char>| #[trigger] self@.contains(c) <==> old(self)@.insert(
            command@,
        ).contains(c) by {
            if old(self)@.contains(c) {
                let i = choose|i: int| 0 <= i < old(self).seen@.len() && old(self).seen@[i]@ == c;
                assert(self.seen@[i] == old(self).seen@[i]);
            }
            if c == command@ {
                assert(self.seen@[self.seen@.len() - 1] == command);
            }
        }
        assert(self@ =~= old(self)@.insert(command@));
    }

    /// Keeps the records of `page` whose command has not been seen, each
    /// command once, and marks the commands of the page as seen.
    pub fn filter_page(&mut self, page: Vec<History>) -> (kept: Vec<History>)
        ensures
            kept@ == dedup_commands(old(self)@, page@),
            final(self)@ == old(self)@.union(commands_of(page@)),
    {
        let mut kept: Vec<History> = Vec::new();
        let ghost start = self@;
        let ghost all = page@;
        proof {
            assert(all.skip(0) =~= all);
            assert(kept@ + dedup_commands(start, all) =~= dedup_commands(start, all));
            assert(commands_of(all.take(0)) =~= Set::<Seq<char>>::empty());
            assert(start.union(Set::<Seq<char>>::empty()) =~= start);
        }
        for r in it: page.into_iter()
            invariant
                it.seq() == all,
                kept@ + dedup_commands(self@, all.skip(it.index() as int)) == dedup_commands(
                    start,
                    all,
                ),
                self@ == start.union(commands_of(all.take(it.index() as int))),
        {
            let ghost i = it.index() as int;
            let ghost rest = all.skip(i);
            assert(rest[0] == r);
            assert(rest.drop_first() == all.skip(i + 1));
            let ghost before = self@;
            let ghost t0 = all.take(i);
            let ghost t1 = all.take(i + 1);
            proof {
                assert forall|c: Seq<char>| #[trigger]
                    commands_of(t1).contains(c) implies commands_of(t0).insert(
                    r.command@,
                ).contains(c) by {
                    let j = choose|j: int| 0 <= j < t1.len() && #[trigger] t1[j].command@ == c;
                    if j < i {
                        assert(t0[j] == t1[j]);
                    }
                }
                assert forall|c: Seq<char>| #[trigger]
                    commands_of(t0).insert(r.command@).contains(c) implies commands_of(
                    t1,
                ).contains(c) by {
                    if c == r.command@ {
                        assert(t1[i] == r);
                    } else {
                        let j = choose|j: int| 0 <= j < t0.len() && #[trigger] t0[j].command@ == c;
                        assert(t1[j] == t0[j]);
                    }
                }
                assert(commands_of(t1) =~= commands_of(t0).insert(r.command@));
            }
            if self.has_seen(&r.command) {
                proof {
                    assert(before.insert(r.command@) =~= before);
                }
            } else {
                let c = r.command.clone();
                self.mark(c);
                kept.push(r);
            }
            proof {
                assert(self@ =~= start.union(commands_of(all.take(i + 1))));
            }
        }
        proof {
            assert(all.skip(all.len() as int).len() == 0);
            assert(all.take(all.len() as int) == all);
        }
        kept
    }
}

/// Keeps the first record of each command, in the order given (the server
/// sends newest first, so the most recently used record of a command wins).
pub fn dedup_by_command(records: Vec<History>) -> (res: Vec<History>)
    ensures
        res@ == dedup_commands(Set::empty(), records@),
{
    let mut f = CommandFilter::new();
    f.filter_page(records)
}

// ---------------------------------------------------------------------------
// Preview
// ---------------------------------------------------------------------------

/// The preview of a record in a window `width` columns wide, given the text
/// of its time of last use: the wrapped command, then the host, the working
/// directory (`-` when unknown) and that time.
pub open spec fn preview_with(h: History, width: int, updated: Seq<char>) -> Seq<char> {
    wrapped_command(h.command@, width) + "\nhostname: "@ + h.hostname@ + "\npwd     : "@ + (match h.working_directory {
        Some(d) => d@,
        None => "-"@,
    }) + "\nupdated : "@ + updated
}

/// The preview of a record, its time of last use written as
/// `%Y-%m-%d %H:%M:%S UTC`.
pub open spec fn preview_of(h: History, width: int) -> Seq<char> {
    preview_with(h, width, utc_time_text(h.updated_at@.0, h.updated_at@.1))
}

/// The preview text of `h` with `updated` as its time of last use.
pub fn render_preview(h: &History, width: usize, updated: &str) -> (res: String)
    requires
        wrap_defined(h.command@, width as int),
    ensures
        res@ == preview_with(*h, width as int, updated@),
{
    let head = wrap_command(h.command.as_str(), width);
    let mut out = chars_of(head.as_str());
    push_str_chars(&mut out, "\nhostname: ");
    push_str_chars(&mut out, h.hostname.as_str());
    push_str_chars(&mut out, "\npwd     : ");
    match &h.working_directory {
        Some(d) => push_str_chars(&mut out, d.as_str()),
        None => push_str_chars(&mut out, "-"),
    }
    push_str_chars(&mut out, "\nupdated : ");
    push_str_chars(&mut out, updated);
    string_from_chars(&out)
}

/// The text shown in the preview window for `h`.
pub fn preview_text(h: &History, width: usize) -> (res: String)
    requires
        wrap_defined(h.command@, width as int),
    ensures
        res@ == preview_of(*h, width as int),
{
    let t = h.updated_at.to_text();
    render_preview(h, width, t.as_str())
}

// ---------------------------------------------------------------------------
// Deleting records from a snapshot
// ---------------------------------------------------------------------------

/// The ids of the records whose command is `command`, in order.
pub open spec fn ids_with_command(records: Seq<History>, command: Seq<char>) -> Seq<i32>
    decreases records.len(),
{
    if records.len() == 0 {
        seq![]
    } else {
        let prev = ids_with_command(records.drop_last(), command);
        if records.last().command@ == command {
            prev.push(records.last().id)
        } else {
            prev
        }
    }
}

/// The records whose command is not `command`, in order.
pub open spec fn without_command(records: Seq<History>, command: Seq<char>) -> Seq<History>
    decreases records.len(),
{
    if records.len() == 0 {
        seq![]
    } else {
        let prev = without_command(records.drop_last(), command);
        if records.last().command@ != command {
            prev.push(records.last())
        } else {
            prev
        }
    }
}

/// The records whose id is not `id`, in order.
pub open spec fn without_id(records: Seq<History>, id: i32) -> Seq<History>
    decreases records.len(),
{
    if records.len() == 0 {
        seq![]
    } else {
        let prev = without_id(records.drop_last(), id);
        if records.last().id != id {
            prev.push(records.last())
        } else {
            prev
        }
    }
}

/// Takes every record out of `records` that has `command`, and returns their
/// ids: the server records to delete when a command is removed from a
/// directory's history.
pub fn delete_by_command(records: &mut Vec<History>, command: &str) -> (ids: Vec<i32>)
    ensures
        ids@ == ids_with_command(old(records)@, command@),
        final(records)@ == without_command(old(records)@, command@),
{
    let target = command.to_owned();
    let mut all: Vec<History> = Vec::new();
    std::mem::swap(&mut all, records);
    let ghost orig = all@;
    let mut ids: Vec<i32> = Vec::new();
    let mut kept: Vec<History> = Vec::new();
    proof {
        assert(orig.take(0) =~= Seq::<History>::empty());
    }
    for r in it: all.into_iter()
        invariant
            it.seq() == orig,
            target@ == command@,
            ids@ == ids_with_command(orig.take(it.index() as int), command@),
            kept@ == without_command(orig.take(it.index() as int), command@),
    {
        let ghost i = it.index() as int;
        proof {
            assert(orig.take(i + 1).drop_last() =~= orig.take(i));
            assert(orig.take(i + 1).last() == r);
        }
        if r.command == target {
            ids.push(r.id);
        } else {
            kept.push(r);
        }
    }
    proof {
        assert(orig.take(orig.len() as int) =~= orig);
    }
    *records = kept;
    ids
}

/// Takes the record with `id` out of `records` (the single displayed record,
/// when deleting from the global history).
pub fn delete_by_id(records: &mut Vec<History>, id: i32)
    ensures
        final(records)@ == without_id(old(records)@, id),
{
    let mut all: Vec<History> = Vec::new();
    std::mem::swap(&mut all, records);
    let ghost orig = all@;
    let mut kept: Vec<History> = Vec::new();
    proof {
        assert(orig.take(0) =~= Seq::<History>::empty());
    }
    for r in it: all.into_iter()
        invariant
            it.seq() == orig,
            kept@ == without_id(orig.take(it.index() as int), id),
    {
        let ghost i = it.index() as int;
        proof {
            assert(orig.take(i + 1).drop_last() =~= orig.take(i));
            assert(orig.take(i + 1).last() == r);
        }
        if r.id != id {
            kept.push(r);
        }
    }
    proof {
        assert(orig.take(orig.len() as int) =~= orig);
    }
    *records = kept;
}

/// Deleting by command splits the records: every record either has its id
/// returned or stays, none that stays has the command, and nothing else is
/// touched.
pub proof fn lemma_delete_by_command_partition(records: Seq<History>, command: Seq<char>)
    ensures
        ids_with_command(records, command).len() + without_command(records, command).len()
            == records.len(),
        forall|i: int|
            0 <= i < without_command(records, command).len() ==> (#[trigger] without_command(
                records,
                command,
            )[i]).command@ != command,
        forall|i: int|
            0 <= i < records.len() && (#[trigger] records[i]).command@ != command
                ==> without_command(records, command).contains(records[i]),
    decreases records.len(),
{
    if records.len() > 0 {
        let init = records.drop_last();
        lemma_delete_by_command_partition(init, command);
        let w = without_command(records, command);
        let w0 = without_command(init, command);
        assert forall|i: int|
            0 <= i < records.len() && (#[trigger] records[i]).command@ != command implies w.contains(
            records[i],
        ) by {
            if i < records.len() - 1 {
                assert(records[i] == init[i]);
                let k = choose|k: int| 0 <= k < w0.len() && w0[k] == init[i];
                assert(w[k] == w0[k]);
            } else {
                assert(w[w.len() - 1] == records[i]);
            }
        }
    }
}

/// Some record with `command` has id `id`.
pub open spec fn is_id_of_command(records: Seq<History>, command: Seq<char>, id: i32) -> bool {
    exists|i: int| 0 <= i < records.len() && records[i].command@ == command && records[i].id == id
}

/// `ids` are the ids of the records with `command`: each belongs to such a
/// record, and every such record's id is among them.
pub open spec fn ids_of_command_exactly(ids: Seq<i32>, records: Seq<History>, command: Seq<char>) -> bool {
    &&& forall|k: int| 0 <= k < ids.len() ==> #[trigger] is_id_of_command(records, command, ids[k])
    &&& forall|i: int|
        0 <= i < records.len() && (#[trigger] records[i]).command@ == command ==> ids.contains(
            records[i].id,
        )
}

/// The ids returned for a command are exactly those of the records with that
/// command: each belongs to such a record, and each such record's id is there.
pub proof fn lemma_ids_with_command_exact(records: Seq<History>, command: Seq<char>)
    ensures
        ids_of_command_exactly(ids_with_command(records, command), records, command),
    decreases records.len(),
{
    if records.len() > 0 {
        let init = records.drop_last();
        lemma_ids_with_command_exact(init, command);
        let ids = ids_with_command(records, command);
        let ids0 = ids_with_command(init, command);
        assert forall|k: int| 0 <= k < ids.len() implies #[trigger] is_id_of_command(
            records,
            command,
            ids[k],
        ) by {
            if k < ids0.len() {
                assert(ids[k] == ids0[k]);
                assert(is_id_of_command(init, command, ids0[k]));
                let i = choose|i: int|
                    0 <= i < init.len() && init[i].command@ == command && init[i].id == ids0[k];
                assert(records[i] == init[i]);
            } else {
                assert(records[records.len() - 1].id == ids[k]);
            }
        }
        assert forall|i: int|
            0 <= i < records.len() && (#[trigger] records[i]).command@ == command implies ids.contains(
            records[i].id,
        ) by {
            if i < records.len() - 1 {
                assert(records[i] == init[i]);
                let k = choose|k: int| 0 <= k < ids0.len() && ids0[k] == init[i].id;
                assert(ids[k] == ids0[k]);
            } else {
                assert(ids[ids.len() - 1] == records[i].id);
            }
        }
    }
}

/// After deleting by id no record with that id is left.
pub proof fn lemma_delete_by_id_removes(records: Seq<History>, id: i32)
    ensures
        forall|i: int|
            0 <= i < without_id(records, id).len() ==> (#[trigger] without_id(records, id)[i]).id
                != id,
        without_id(records, id).len() <= records.len(),
    decreases records.len(),
{
    if records.len() > 0 {
        lemma_delete_by_id_removes(records.drop_last(), id);
    }
}

} // verus!
