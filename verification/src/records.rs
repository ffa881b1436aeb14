//! The high-score table: a bounded list of score records held in
//! descending point order, the policy that updates it at session end, and
//! its persistent line encoding.

use vstd::prelude::*;

use crate::text::{all_digits, dec_digits, digits_value, fmt_u64, lemma_dec_digits_value};

verus! {

/// The leaderboard keeps at most this many records.
pub const MAX_RECORDS: usize = 10;

/// A score record: a player name and a point total. The session engine
/// floors scores at zero, so totals are never negative.
pub struct Record {
    pub player: Vec<u8>,
    pub points: i64,
}

/// The mathematical content of a record.
#[verifier::ext_equal]
pub struct RecordView {
    pub player: Seq<u8>,
    pub points: int,
}

impl View for Record {
    type V = RecordView;

    open spec fn view(&self) -> RecordView {
        RecordView { player: self.player@, points: self.points as int }
    }
}

impl RecordView {
    /// A record the store can hold: a non-negative total, and a name free
    /// of line breaks so that one record occupies one line.
    pub open spec fn wf(self) -> bool {
        &&& 0 <= self.points <= i64::MAX
        &&& forall|i: int| 0 <= i < self.player.len() ==> self.player[i] != 10
    }
}

pub open spec fn views_of(rs: Seq<Record>) -> Seq<RecordView> {
    rs.map_values(|r: Record| r@)
}

/// Point totals never increase along the table.
pub open spec fn points_desc(rs: Seq<Record>) -> bool {
    forall|i: int, j: int| 0 <= i < j < rs.len() ==> (#[trigger] rs[j])@.points <= (
    #[trigger] rs[i])@.points
}

/// A well-formed leaderboard: bounded, descending, every record storable.
pub open spec fn table_wf(rs: Seq<Record>) -> bool {
    &&& rs.len() <= MAX_RECORDS
    &&& points_desc(rs)
    &&& forall|i: int| 0 <= i < rs.len() ==> (#[trigger] rs[i])@.wf()
}

/// A new total deserves a place: the table has room, or the weakest kept
/// record is strictly beaten.
pub open spec fn qualifies_spec(rs: Seq<Record>, new: int) -> bool {
    rs.len() < MAX_RECORDS || rs[rs.len() - 1]@.points < new
}

/// Decides whether a new total deserves a place in the table, so that the
/// caller prompts for a name only when it does.
pub fn record_qualifies(recs: &Vec<Record>, new: i64) -> (r: bool)
    ensures
        r == qualifies_spec(recs@, new as int),
{
    recs.len() < MAX_RECORDS || recs[recs.len() - 1].points < new
}

/// Inserts a new record, keeping the table in descending point order. A
/// record that ties an existing total goes after it, as a stable sort of
/// the appended record would place it.
pub fn insert_record(recs: &mut Vec<Record>, name: Vec<u8>, new: i64)
    requires
        points_desc(old(recs)@),
        old(recs)@.len() < usize::MAX,
        (RecordView { player: name@, points: new as int }).wf(),
        forall|i: int| 0 <= i < old(recs)@.len() ==> (#[trigger] old(recs)@[i])@.wf(),
    ensures
        final(recs)@.len() == old(recs)@.len() + 1,
        points_desc(final(recs)@),
        views_of(final(recs)@).to_multiset() == views_of(old(recs)@).to_multiset().insert(
            RecordView { player: name@, points: new as int },
        ),
        forall|i: int| 0 <= i < final(recs)@.len() ==> (#[trigger] final(recs)@[i])@.wf(),
{
    let mut j: usize = 0;
    while j < recs.len() && recs[j].points >= new
        invariant
            j <= recs@.len(),
            forall|k: int| 0 <= k < j ==> (#[trigger] recs@[k])@.points >= new,
        decreases recs@.len() - j,
    {
        j = j + 1;
    }
    let ghost prev = recs@;
    let ghost newview = RecordView { player: name@, points: new as int };
    recs.insert(j, Record { player: name, points: new });
    proof {
        prev.insert_ensures(j as int, recs@[j as int]);
        assert(points_desc(recs@)) by {
            assert forall|a: int, b: int| 0 <= a < b < recs@.len() implies (
            #[trigger] recs@[b])@.points <= (#[trigger] recs@[a])@.points by {
                if b < j {
                    assert(recs@[a] == prev[a] && recs@[b] == prev[b]);
                } else if b == j {
                    assert(recs@[a] == prev[a]);
                } else if a < j {
                    assert(recs@[a] == prev[a] && recs@[b] == prev[b - 1]);
                    if (j as int) < prev.len() {
                        assert(prev[j as int]@.points < new);
                    }
                } else if a == j {
                    assert(recs@[b] == prev[b - 1]);
                    assert(prev[j as int]@.points < new);
                    assert(prev[b - 1]@.points <= prev[j as int]@.points || j == b - 1);
                } else {
                    assert(recs@[a] == prev[a - 1] && recs@[b] == prev[b - 1]);
                }
            }
        }
        assert(views_of(recs@) =~= views_of(prev).insert(j as int, newview));
        vstd::seq_lib::to_multiset_insert(views_of(prev), j as int, newview);
        assert forall|i: int| 0 <= i < recs@.len() implies (#[trigger] recs@[i])@.wf() by {
            if i < j {
                assert(recs@[i] == prev[i]);
            } else if i > j {
                assert(recs@[i] == prev[i - 1]);
            }
        }
    }
}

/// The leaderboard update policy: when the table is full, a new total
/// that does not strictly beat the weakest kept record is discarded and
/// the table is left untouched; otherwise the new record is inserted and,
/// at capacity, the weakest record is evicted so the table returns to its
/// bound.
pub fn process_records(recs: &mut Vec<Record>, new: i64, name: Vec<u8>)
    requires
        table_wf(old(recs)@),
        (RecordView { player: name@, points: new as int }).wf(),
    ensures
        table_wf(final(recs)@),
        !qualifies_spec(old(recs)@, new as int) ==> final(recs)@ == old(recs)@,
        qualifies_spec(old(recs)@, new as int) && old(recs)@.len() < MAX_RECORDS ==> {
            &&& final(recs)@.len() == old(recs)@.len() + 1
            &&& views_of(final(recs)@).to_multiset() == views_of(old(recs)@).to_multiset().insert(
                RecordView { player: name@, points: new as int },
            )
        },
        qualifies_spec(old(recs)@, new as int) && old(recs)@.len() == MAX_RECORDS ==> {
            &&& final(recs)@.len() == MAX_RECORDS
            &&& views_of(final(recs)@).to_multiset() == views_of(old(recs)@).to_multiset().remove(
                old(recs)@[old(recs)@.len() - 1]@,
            ).insert(RecordView { player: name@, points: new as int })
        },
{
    let n = recs.len();
    if n >= MAX_RECORDS {
        if recs[n - 1].points < new {
            let ghost prev = recs@;
            recs.pop();
            proof {
                assert(recs@ =~= prev.drop_last());
                assert(prev.drop_last() =~= prev.remove(prev.len() - 1));
                assert(views_of(recs@) =~= views_of(prev).remove(views_of(prev).len() - 1));
                views_of(prev).to_multiset_ensures();
                assert(views_of(prev).remove(views_of(prev).len() - 1).to_multiset()
                    =~= views_of(prev).to_multiset().remove(prev[prev.len() - 1]@));
            }
            insert_record(recs, name, new);
        }
    } else {
        insert_record(recs, name, new);
    }
}

/// One stored record: the decimal total, one space, the name, a newline.
pub open spec fn encode_record_spec(r: RecordView) -> Seq<u8>
    recommends
        r.wf(),
{
    dec_digits(r.points as nat) + seq![32u8] + r.player + seq![10u8]
}

/// The stored table: records in order, one line each.
pub open spec fn encode_records_spec(rs: Seq<RecordView>) -> Seq<u8>
    decreases rs.len(),
{
    if rs.len() == 0 {
        Seq::empty()
    } else {
        encode_record_spec(rs[0]) + encode_records_spec(rs.drop_first())
    }
}

pub proof fn lemma_encode_records_snoc(rs: Seq<RecordView>, r: RecordView)
    ensures
        encode_records_spec(rs.push(r)) == encode_records_spec(rs) + encode_record_spec(r),
    decreases rs.len(),
{
    if rs.len() == 0 {
        assert(rs.push(r)[0] == r);
        assert(rs.push(r).drop_first() =~= Seq::<RecordView>::empty());
        assert(encode_records_spec(Seq::<RecordView>::empty()) =~= Seq::<u8>::empty());
        assert(encode_record_spec(r) + Seq::<u8>::empty() =~= encode_record_spec(r));
        assert(Seq::<u8>::empty() + encode_record_spec(r) =~= encode_record_spec(r));
    } else {
        assert(rs.push(r)[0] == rs[0]);
        assert(rs.push(r).drop_first() =~= rs.drop_first().push(r));
        lemma_encode_records_snoc(rs.drop_first(), r);
        assert((encode_record_spec(rs[0]) + encode_records_spec(rs.drop_first()))
            + encode_record_spec(r) =~= encode_record_spec(rs[0]) + (encode_records_spec(
            rs.drop_first(),
        ) + encode_record_spec(r)));
    }
}

/// Encodes the table for persistence, one line per record.
pub fn encode_records(recs: &Vec<Record>) -> (out: Vec<u8>)
    requires
        forall|i: int| 0 <= i < recs@.len() ==> (#[trigger] recs@[i])@.wf(),
    ensures
        out@ == encode_records_spec(views_of(recs@)),
{
    let mut out: Vec<u8> = Vec::new();
    let mut i: usize = 0;
    proof {
        assert(views_of(recs@.subrange(0, 0)) =~= Seq::<RecordView>::empty());
    }
    while i < recs.len()
        invariant
            i <= recs@.len(),
            forall|k: int| 0 <= k < recs@.len() ==> (#[trigger] recs@[k])@.wf(),
            out@ == encode_records_spec(views_of(recs@.subrange(0, i as int))),
        decreases recs@.len() - i,
    {
        let ghost pre = out@;
        let ghost rv = recs@[i as int]@;
        let mut digits = crate::text::fmt_u64(recs[i].points as u64);
        out.append(&mut digits);
        out.push(32);
        let name_len = recs[i].player.len();
        let mut k: usize = 0;
        while k < name_len
            invariant
                k <= name_len == recs@[i as int].player@.len(),
                i < recs@.len(),
                out@ == pre + dec_digits(recs@[i as int]@.points as nat) + seq![32u8] + recs@[
                    i as int
                ].player@.subrange(0, k as int),
            decreases name_len - k,
        {
            let b = recs[i].player[k];
            out.push(b);
            proof {
                assert(recs@[i as int].player@.subrange(0, (k + 1) as int) =~= recs@[
                    i as int
                ].player@.subrange(0, k as int).push(b));
            }
            k = k + 1;
        }
        out.push(10);
        proof {
            assert(recs@[i as int].player@.subrange(0, name_len as int) =~= recs@[
                i as int
            ].player@);
            assert(out@ =~= pre + encode_record_spec(rv));
            assert(views_of(recs@.subrange(0, (i + 1) as int)) =~= views_of(
                recs@.subrange(0, i as int),
            ).push(rv));
            lemma_encode_records_snoc(views_of(recs@.subrange(0, i as int)), rv);
        }
        i = i + 1;
    }
    proof {
        assert(recs@.subrange(0, recs@.len() as int) =~= recs@);
    }
    out
}

/// The index of the first occurrence of a byte, if any.
pub open spec fn find_byte(s: Seq<u8>, b: u8) -> Option<int>
    decreases s.len(),
{
    if s.len() == 0 {
        Option::None
    } else if s[0] == b {
        Option::Some(0int)
    } else {
        match find_byte(s.drop_first(), b) {
            Option::Some(i) => Option::Some(i + 1),
            Option::None => Option::None,
        }
    }
}

pub proof fn lemma_find_byte_bounds(s: Seq<u8>, b: u8)
    ensures
        find_byte(s, b) matches Option::Some(k) ==> 0 <= k < s.len(),
    decreases s.len(),
{
    if s.len() > 0 && s[0] != b {
        lemma_find_byte_bounds(s.drop_first(), b);
    }
}

pub proof fn lemma_find_byte_at(s: Seq<u8>, b: u8, k: int)
    requires
        0 <= k < s.len(),
        s[k] == b,
        forall|i: int| 0 <= i < k ==> s[i] != b,
    ensures
        find_byte(s, b) == Option::Some(k),
    decreases k,
{
    if k == 0 {
    } else {
        assert(forall|i: int| 0 <= i < k - 1 ==> #[trigger] s.drop_first()[i] == s[i + 1]);
        lemma_find_byte_at(s.drop_first(), b, k - 1);
    }
}

pub proof fn lemma_find_byte_none(s: Seq<u8>, b: u8)
    requires
        forall|i: int| 0 <= i < s.len() ==> s[i] != b,
    ensures
        find_byte(s, b) is None,
    decreases s.len(),
{
    if s.len() > 0 {
        assert(forall|i: int|
            0 <= i < s.drop_first().len() ==> #[trigger] s.drop_first()[i] == s[i + 1]);
        lemma_find_byte_none(s.drop_first(), b);
    }
}

/// One stored line read back: the decimal total up to the first space,
/// the name after it.
pub open spec fn parse_line_spec(line: Seq<u8>) -> Option<RecordView> {
    match find_byte(line, 32) {
        Option::Some(j) => {
            let digits = line.subrange(0, j);
            let name = line.subrange(j + 1, line.len() as int);
            if all_digits(digits) && digits_value(digits) <= i64::MAX {
                Option::Some(RecordView { player: name, points: digits_value(digits) })
            } else {
                Option::None
            }
        },
        Option::None => Option::None,
    }
}

/// The stored table read back: one record per newline-terminated line;
/// anything else refuses the whole table.
pub open spec fn parse_records_spec(bytes: Seq<u8>) -> Option<Seq<RecordView>>
    decreases bytes.len(),
    via parse_records_spec_decreases
{
    if bytes.len() == 0 {
        Option::Some(Seq::empty())
    } else {
        match find_byte(bytes, 10) {
            Option::Some(k) => {
                let line = bytes.subrange(0, k);
                let rest = bytes.subrange(k + 1, bytes.len() as int);
                match parse_line_spec(line) {
                    Option::Some(r) => match parse_records_spec(rest) {
                        Option::Some(rs) => Option::Some(seq![r] + rs),
                        Option::None => Option::None,
                    },
                    Option::None => Option::None,
                }
            },
            Option::None => Option::None,
        }
    }
}

#[via_fn]
proof fn parse_records_spec_decreases(bytes: Seq<u8>) {
    lemma_find_byte_bounds(bytes, 10);
}

/// Reads the stored table back. Any malformed line, out-of-range total,
/// or unterminated tail refuses the whole table.
pub fn parse_records(bytes: &Vec<u8>) -> (r: Option<Vec<Record>>)
    ensures
        r is Some <==> parse_records_spec(bytes@) is Some,
        r matches Option::Some(rs) ==> Option::Some(views_of(rs@)) == parse_records_spec(bytes@),
{
    let n = bytes.len();
    let mut out: Vec<Record> = Vec::new();
    let mut pos: usize = 0;
    proof {
        assert(views_of(out@) =~= Seq::<RecordView>::empty());
        assert(bytes@.subrange(0, n as int) =~= bytes@);
        match parse_records_spec(bytes@) {
            Option::Some(tail) => {
                assert(views_of(out@) + tail =~= tail);
            },
            Option::None => {},
        }
    }
    while pos < n
        invariant
            pos <= n == bytes@.len(),
            parse_records_spec(bytes@.subrange(pos as int, n as int)) matches Option::Some(tail)
                ==> parse_records_spec(bytes@) == Option::Some(views_of(out@) + tail),
            parse_records_spec(bytes@.subrange(pos as int, n as int)) is None
                ==> parse_records_spec(bytes@) is None,
        decreases n - pos,
    {
        let ghost suffix = bytes@.subrange(pos as int, n as int);
        let mut k: usize = pos;
        while k < n && bytes[k] != 10
            invariant
                pos <= k <= n == bytes@.len(),
                forall|i: int| pos <= i < k ==> bytes@[i] != 10,
            decreases n - k,
        {
            k = k + 1;
        }
        if k == n {
            proof {
                assert forall|i: int| 0 <= i < suffix.len() implies suffix[i] != 10 by {
                    assert(suffix[i] == bytes@[i + pos]);
                }
                lemma_find_byte_none(suffix, 10);
            }
            return Option::None;
        }
        proof {
            assert forall|i: int| 0 <= i < k - pos implies suffix[i] != 10 by {
                assert(suffix[i] == bytes@[i + pos]);
            }
            assert(suffix[k - pos] == bytes@[k as int]);
            lemma_find_byte_at(suffix, 10, k - pos);
        }
        let ghost line = suffix.subrange(0, k - pos);
        proof {
            assert(line =~= bytes@.subrange(pos as int, k as int));
        }
        let mut j: usize = pos;
        while j < k && bytes[j] != 32
            invariant
                pos <= j <= k <= n == bytes@.len(),
                forall|i: int| pos <= i < j ==> bytes@[i] != 32,
            decreases k - j,
        {
            j = j + 1;
        }
        if j == k {
            proof {
                assert forall|i: int| 0 <= i < line.len() implies line[i] != 32 by {
                    assert(line[i] == bytes@[i + pos]);
                }
                lemma_find_byte_none(line, 32);
            }
            return Option::None;
        }
        proof {
            assert forall|i: int| 0 <= i < j - pos implies line[i] != 32 by {
                assert(line[i] == bytes@[i + pos]);
            }
            assert(line[j - pos] == bytes@[j as int]);
            lemma_find_byte_at(line, 32, j - pos);
        }
        let ghost digits = line.subrange(0, j - pos);
        proof {
            assert(digits =~= bytes@.subrange(pos as int, j as int));
        }
        if j == pos {
            proof {
                assert(!all_digits(digits));
            }
            return Option::None;
        }
        let mut acc: u128 = 0;
        let mut over = false;
        let mut bad = false;
        let mut q: usize = pos;
        while q < j && !bad
            invariant
                pos <= q <= j <= n == bytes@.len(),
                pos < j,
                bad ==> !all_digits(bytes@.subrange(pos as int, j as int)),
                !bad ==> forall|i: int|
                    pos <= i < q ==> crate::text::is_digit_byte(#[trigger] bytes@[i]),
                !bad && !over ==> acc == digits_value(bytes@.subrange(pos as int, q as int)) && acc
                    <= (i64::MAX as u128),
                !bad && over ==> digits_value(bytes@.subrange(pos as int, q as int)) > (
                i64::MAX as int),
            decreases j - q + if bad {
                0int
            } else {
                1int
            },
        {
            let c = bytes[q];
            if c < 48 || c > 57 {
                proof {
                    assert(bytes@.subrange(pos as int, j as int)[q - pos] == bytes@[q as int]);
                    assert(!all_digits(bytes@.subrange(pos as int, j as int)));
                }
                bad = true;
            } else {
                proof {
                    assert(bytes@.subrange(pos as int, (q + 1) as int) =~= bytes@.subrange(
                        pos as int,
                        q as int,
                    ).push(bytes@[q as int]));
                    crate::text::lemma_digits_value_push(
                        bytes@.subrange(pos as int, q as int),
                        bytes@[q as int],
                    );
                }
                if !over {
                    acc = acc * 10 + ((c - 48) as u128);
                    if acc > (i64::MAX as u128) {
                        over = true;
                    }
                }
                q = q + 1;
            }
        }
        if bad {
            return Option::None;
        }
        proof {
            assert forall|i: int| 0 <= i < digits.len() implies crate::text::is_digit_byte(
                #[trigger] digits[i],
            ) by {
                assert(digits[i] == bytes@[i + pos]);
            }
            assert(all_digits(digits));
        }
        if over {
            return Option::None;
        }
        let mut name: Vec<u8> = Vec::new();
        let mut t: usize = j + 1;
        while t < k
            invariant
                j + 1 <= t <= k <= n == bytes@.len(),
                name@ == bytes@.subrange((j + 1) as int, t as int),
            decreases k - t,
        {
            let b = bytes[t];
            name.push(b);
            proof {
                assert(bytes@.subrange((j + 1) as int, (t + 1) as int) =~= bytes@.subrange(
                    (j + 1) as int,
                    t as int,
                ).push(b));
            }
            t = t + 1;
        }
        let ghost rv = RecordView {
            player: bytes@.subrange((j + 1) as int, k as int),
            points: acc as int,
        };
        let ghost prev_out = out@;
        let rec = Record { player: name, points: acc as i64 };
        out.push(rec);
        proof {
            assert(line.subrange(j - pos + 1, line.len() as int) =~= bytes@.subrange(
                (j + 1) as int,
                k as int,
            ));
            assert(line.subrange(0, j - pos) == digits);
            assert(parse_line_spec(line) == Option::Some(rv));
            assert(suffix.subrange(k - pos + 1, suffix.len() as int) =~= bytes@.subrange(
                (k + 1) as int,
                n as int,
            ));
            assert(parse_records_spec(suffix) == (match parse_records_spec(
                bytes@.subrange((k + 1) as int, n as int),
            ) {
                Option::Some(rs) => Option::Some(seq![rv] + rs),
                Option::None => Option::<Seq<RecordView>>::None,
            }));
            assert(views_of(out@) =~= views_of(prev_out).push(rv));
            match parse_records_spec(bytes@.subrange((k + 1) as int, n as int)) {
                Option::Some(tail) => {
                    assert(views_of(prev_out) + (seq![rv] + tail) =~= views_of(out@) + tail);
                },
                Option::None => {},
            }
        }
        pos = k + 1;
    }
    proof {
        assert(bytes@.subrange(pos as int, n as int) =~= Seq::<u8>::empty());
        assert(parse_records_spec(Seq::<u8>::empty()) == Option::Some(Seq::<RecordView>::empty()));
        assert(views_of(out@) + Seq::<RecordView>::empty() =~= views_of(out@));
    }
    Option::Some(out)
}

/// Round trip: a stored table parses back to exactly the records it was
/// written from.
pub proof fn lemma_records_round_trip(vs: Seq<RecordView>)
    requires
        forall|i: int| 0 <= i < vs.len() ==> (#[trigger] vs[i]).wf(),
    ensures
        parse_records_spec(encode_records_spec(vs)) == Option::Some(vs),
    decreases vs.len(),
{
    if vs.len() == 0 {
        assert(parse_records_spec(encode_records_spec(vs)) == Option::Some(Seq::<
            RecordView,
        >::empty()));
        assert(Seq::<RecordView>::empty() =~= vs);
    } else {
        let r = vs[0];
        assert(r.wf());
        let d = dec_digits(r.points as nat);
        lemma_dec_digits_value(r.points as nat);
        let one = encode_record_spec(r);
        let rest_enc = encode_records_spec(vs.drop_first());
        let enc = one + rest_enc;
        assert(encode_records_spec(vs) == enc);
        let k = d.len() + 1 + r.player.len();
        assert(one.len() == k + 1);
        assert(enc[k as int] == 10) by {
            assert(one[k as int] == 10);
        }
        assert(forall|i: int| 0 <= i < d.len() ==> crate::text::is_digit_byte(#[trigger] d[i]));
        assert forall|i: int| 0 <= i < k implies enc[i] != 10 by {
            assert(enc[i] == one[i]);
            if i < d.len() {
                assert(one[i] == d[i]);
            } else if i == d.len() {
                assert(one[i] == 32);
            } else {
                assert(one[i] == r.player[i - d.len() - 1]);
            }
        }
        lemma_find_byte_at(enc, 10, k as int);
        let line = enc.subrange(0, k as int);
        assert(line =~= d + seq![32u8] + r.player);
        assert(line[d.len() as int] == 32);
        assert forall|i: int| 0 <= i < d.len() implies line[i] != 32 by {
            assert(line[i] == d[i]);
        }
        lemma_find_byte_at(line, 32, d.len() as int);
        assert(line.subrange(0, d.len() as int) =~= d);
        assert(line.subrange(d.len() + 1 as int, line.len() as int) =~= r.player);
        assert(parse_line_spec(line) == Option::Some(r)) by {
            assert(RecordView { player: r.player, points: digits_value(d) } =~= r);
        }
        let rest = enc.subrange(k + 1 as int, enc.len() as int);
        assert(rest =~= rest_enc);
        assert(forall|i: int|
            0 <= i < vs.drop_first().len() ==> (#[trigger] vs.drop_first()[i]) == vs[i + 1]);
        lemma_records_round_trip(vs.drop_first());
        assert(seq![r] + vs.drop_first() =~= vs);
    }
}

} // verus!
