//! Durable-record codec for fingerprints.
//!
//! A fingerprint is persisted as one string: each unit is written as a tag
//! (`w` for a word, `l` for a link), the decimal character count, a colon,
//! and the text. Decoding parses that framing back and rejects anything
//! malformed; encoding and decoding are exact inverses, so equal record
//! keys mean equal fingerprints.

use vstd::prelude::*;

use crate::kv::{distinct_keys, kv_map};
use crate::model::GuildView;
use crate::numeric::{
    all_digits, dec_str, dec_val, is_digit, lemma_dec_str_val, lemma_dec_val_prefix, parse_dec,
    render_u64,
};
use crate::text::{chars_to_string, str_chars, Message, Unit, UnitView};

verus! {

/// One community's durable record: each fingerprint's persisted string with
/// its acceptance instant, the monitored channels, and the rejection
/// window, instants and window in microseconds.
pub struct GuildRecord {
    pub messages: Vec<(String, i64)>,
    pub monitored_channels: Vec<u64>,
    pub ttl: i64,
}

/// Mathematical form of a durable record.
#[verifier::ext_equal]
pub struct RecordView {
    pub messages: Seq<(Seq<char>, int)>,
    pub monitored: Seq<u64>,
    pub ttl: int,
}

impl View for GuildRecord {
    type V = RecordView;

    open spec fn view(&self) -> RecordView {
        RecordView {
            messages: self.messages@.map_values(|p: (String, i64)| (p.0@, p.1 as int)),
            monitored: self.monitored_channels@,
            ttl: self.ttl as int,
        }
    }
}

/// A record's message entries with their keys decoded; entries that do not
/// decode carry an empty fingerprint and are ruled out by `record_ok`.
pub open spec fn decoded_pairs(ms: Seq<(Seq<char>, int)>) -> Seq<(Seq<UnitView>, int)> {
    ms.map_values(
        |p: (Seq<char>, int)|
            (
                match dec_units(p.0) {
                    Option::Some(us) => us,
                    Option::None => Seq::<UnitView>::empty(),
                },
                p.1,
            ),
    )
}

/// Whether a record body is well formed: every fingerprint string decodes,
/// no fingerprint or channel occurs twice, and the window is a duration.
pub open spec fn record_ok(r: RecordView) -> bool {
    &&& forall|i: int|
        0 <= i < r.messages.len() ==> dec_units((#[trigger] r.messages[i]).0) is Some
    &&& distinct_keys(decoded_pairs(r.messages))
    &&& forall|i: int, j: int|
        0 <= i < j < r.monitored.len() ==> r.monitored[i] != r.monitored[j]
    &&& r.ttl >= 0
}

/// The community state a well-formed record denotes.
pub open spec fn loaded_guild(r: RecordView) -> GuildView {
    GuildView {
        monitored: r.monitored.to_set(),
        seen: kv_map(decoded_pairs(r.messages)),
        ttl: r.ttl,
    }
}

/// How a record body loads: its denoted state, or nothing if malformed.
pub open spec fn load_meta_spec(r: RecordView) -> Option<GuildView> {
    if record_ok(r) {
        Some(loaded_guild(r))
    } else {
        None
    }
}

/// The keyed records, as key strings and record views.
pub open spec fn records_view(s: Seq<(String, GuildRecord)>) -> Seq<(Seq<char>, RecordView)> {
    s.map_values(|p: (String, GuildRecord)| (p.0@, p.1@))
}

/// How a whole record set loads: in order, each record with a parsable key
/// and a well-formed body lands in the registry (a later record with the
/// same key wins); every other record is skipped.
pub open spec fn load_all_spec(rs: Seq<(Seq<char>, RecordView)>) -> Map<u64, GuildView>
    decreases rs.len(),
{
    if rs.len() == 0 {
        Map::empty()
    } else {
        let m = load_all_spec(rs.drop_last());
        match parse_dec(rs.last().0) {
            Option::None => m,
            Option::Some(id) => match load_meta_spec(rs.last().1) {
                Option::None => m,
                Option::Some(g) => m.insert(id, g),
            },
        }
    }
}

/// The persisted form of one unit: tag, decimal length, colon, text.
pub open spec fn enc_unit(u: UnitView) -> Seq<char> {
    match u {
        UnitView::Word(t) => seq!['w'] + dec_str(t.len()) + seq![':'] + t,
        UnitView::Link(t) => seq!['l'] + dec_str(t.len()) + seq![':'] + t,
    }
}

/// The persisted form of a fingerprint: its units, in order.
pub open spec fn enc_units(us: Seq<UnitView>) -> Seq<char>
    decreases us.len(),
{
    if us.len() == 0 {
        Seq::empty()
    } else {
        enc_unit(us[0]) + enc_units(us.drop_first())
    }
}

/// The length of the leading digit run.
pub open spec fn digit_run(s: Seq<char>) -> int
    decreases s.len(),
{
    if s.len() == 0 {
        0
    } else if !is_digit(s[0]) {
        0
    } else {
        1 + digit_run(s.drop_first())
    }
}

/// How a persisted string decodes back into a fingerprint, unit by unit;
/// `None` for anything that does not follow the framing exactly.
pub open spec fn dec_units(s: Seq<char>) -> Option<Seq<UnitView>>
    decreases s.len(),
{
    if s.len() == 0 {
        Some(Seq::empty())
    } else if s[0] != 'w' && s[0] != 'l' {
        None
    } else {
        let rest = s.drop_first();
        let dl = digit_run(rest);
        if dl < 1 || dl >= rest.len() {
            None
        } else if rest[dl] != ':' {
            None
        } else {
            let n = dec_val(rest.take(dl));
            if !(0 <= n && n <= rest.len() - dl - 1) {
                None
            } else {
                let text = rest.subrange(dl + 1, dl + 1 + n);
                let tail = rest.skip(dl + 1 + n);
                match dec_units(tail) {
                    Option::None => None,
                    Option::Some(us) => Some(
                        seq![
                            if s[0] == 'w' {
                                UnitView::Word(text)
                            } else {
                                UnitView::Link(text)
                            },
                        ] + us,
                    ),
                }
            }
        }
    }
}

/// The leading digit run of a digit string followed by a non-digit is the
/// digit string itself.
proof fn lemma_digit_run_concat(a: Seq<char>, b: Seq<char>)
    requires
        all_digits(a),
        b.len() > 0,
        !is_digit(b[0]),
    ensures
        digit_run(a + b) == a.len(),
    decreases a.len(),
{
    if a.len() == 0 {
        assert(a + b =~= b);
    } else {
        assert((a + b)[0] == a[0]);
        assert((a + b).drop_first() =~= a.drop_first() + b);
        assert(all_digits(a.drop_first())) by {
            assert(forall|i: int| 0 <= i < a.len() - 1 ==> a.drop_first()[i] == a[i + 1]);
        }
        lemma_digit_run_concat(a.drop_first(), b);
    }
}

/// Appending a unit to a fingerprint appends its persisted form.
proof fn lemma_enc_units_snoc(us: Seq<UnitView>, u: UnitView)
    ensures
        enc_units(us.push(u)) == enc_units(us) + enc_unit(u),
    decreases us.len(),
{
    if us.len() == 0 {
        assert(us.push(u)[0] == u);
        assert(us.push(u).drop_first() =~= Seq::<UnitView>::empty());
        assert(enc_units(Seq::<UnitView>::empty()) =~= Seq::<char>::empty());
        assert(enc_units(us.push(u)) =~= enc_unit(u) + Seq::<char>::empty());
        assert(enc_unit(u) + Seq::<char>::empty() =~= enc_unit(u));
        assert(enc_units(us) + enc_unit(u) =~= enc_unit(u));
    } else {
        assert(us.push(u)[0] == us[0]);
        assert(us.push(u).drop_first() =~= us.drop_first().push(u));
        lemma_enc_units_snoc(us.drop_first(), u);
        assert(enc_unit(us[0]) + (enc_units(us.drop_first()) + enc_unit(u)) =~= (enc_unit(us[0])
            + enc_units(us.drop_first())) + enc_unit(u));
    }
}

/// Decoding inverts encoding: the persisted form of any fingerprint decodes
/// back to exactly that fingerprint.
#[verifier::rlimit(100)]
pub proof fn lemma_units_round_trip(us: Seq<UnitView>)
    ensures
        dec_units(enc_units(us)) == Some(us),
    decreases us.len(),
{
    if us.len() == 0 {
        assert(dec_units(enc_units(us)) == Some(Seq::<UnitView>::empty()));
        assert(us =~= Seq::<UnitView>::empty());
    } else {
        let u0 = us[0];
        let t = match u0 {
            UnitView::Word(t) => t,
            UnitView::Link(t) => t,
        };
        let tag = if u0 is Word {
            'w'
        } else {
            'l'
        };
        let ds = dec_str(t.len());
        lemma_dec_str_val(t.len());
        let s = enc_units(us);
        let follow = enc_units(us.drop_first());
        assert(enc_unit(u0) =~= seq![tag] + ds + seq![':'] + t);
        assert(s =~= seq![tag] + (ds + (seq![':'] + t + follow)));
        assert(s[0] == tag);
        let rest = s.drop_first();
        assert(rest =~= ds + (seq![':'] + t + follow));
        assert(!is_digit((seq![':'] + t + follow)[0])) by {
            assert((seq![':'] + t + follow)[0] == ':');
            assert(':' as u32 == 0x3a);
        }
        lemma_digit_run_concat(ds, seq![':'] + t + follow);
        let dl = digit_run(rest);
        assert(dl == ds.len());
        assert(1 <= dl < rest.len());
        assert(rest[dl] == ':');
        assert(rest.take(dl) =~= ds);
        let n = dec_val(rest.take(dl));
        assert(n == t.len());
        assert(rest.len() - dl - 1 == t.len() + follow.len());
        assert(rest.subrange(dl + 1, dl + 1 + n) =~= t);
        assert(rest.skip(dl + 1 + n) =~= follow);
        lemma_units_round_trip(us.drop_first());
        assert(tag == 'w' ==> u0 == UnitView::Word(t));
        assert(tag == 'l' ==> u0 == UnitView::Link(t));
        assert('w' as u32 == 0x77 && 'l' as u32 == 0x6c);
        assert(seq![u0] + us.drop_first() =~= us);
    }
}

/// Writes a fingerprint as its persisted string.
pub fn encode_units(m: &Message) -> (r: String)
    ensures
        r@ == enc_units(m@),
{
    let mut out: Vec<char> = Vec::new();
    let n = m.units.len();
    let mut i: usize = 0;
    proof {
        assert(m@.take(0) =~= Seq::<UnitView>::empty());
        assert(enc_units(m@.take(0)) =~= Seq::<char>::empty());
    }
    while i < n
        invariant
            i <= n,
            n == m.units@.len(),
            out@ == enc_units(m@.take(i as int)),
        decreases n - i,
    {
        let ghost before = out@;
        let u = &m.units[i];
        let text = match u {
            Unit::Word(t) => t,
            Unit::Link(t) => t,
        };
        let tag = match u {
            Unit::Word(_) => 'w',
            Unit::Link(_) => 'l',
        };
        out.push(tag);
        let mut tv = str_chars(text.as_str());
        let ls = render_u64(tv.len() as u64);
        let mut lv = str_chars(ls.as_str());
        out.append(&mut lv);
        out.push(':');
        out.append(&mut tv);
        proof {
            assert(m@[i as int] == u@);
            assert(out@ =~= before + enc_unit(m@[i as int]));
            lemma_enc_units_snoc(m@.take(i as int), m@[i as int]);
            assert(m@.take(i as int + 1) =~= m@.take(i as int).push(m@[i as int]));
        }
        i = i + 1;
    }
    proof {
        assert(m@.take(n as int) =~= m@);
    }
    chars_to_string(&out)
}

fn is_digit_char(c: char) -> (r: bool)
    ensures
        r == is_digit(c),
{
    let u = c as u32;
    0x30 <= u && u <= 0x39
}

/// Parses the digit slice `cs[start..end]` as a length; `None` exactly when
/// the value exceeds `u64::MAX`.
fn parse_digits(cs: &Vec<char>, start: usize, end: usize) -> (r: Option<u64>)
    requires
        start <= end <= cs@.len(),
        all_digits(cs@.subrange(start as int, end as int)),
    ensures
        (match r {
            Some(v) => v as int == dec_val(cs@.subrange(start as int, end as int)),
            None => dec_val(cs@.subrange(start as int, end as int)) > u64::MAX,
        }),
{
    let ghost sub = cs@.subrange(start as int, end as int);
    let mut acc: u64 = 0;
    let mut i: usize = start;
    proof {
        assert(sub.take(0) =~= Seq::<char>::empty());
    }
    while i < end
        invariant
            start <= i <= end <= cs@.len(),
            sub == cs@.subrange(start as int, end as int),
            all_digits(sub),
            acc as int == dec_val(sub.take(i - start)),
        decreases end - i,
    {
        let c = cs[i];
        proof {
            assert(sub[i - start] == cs@[i as int]);
            assert(is_digit(c));
            assert(sub.take(i - start + 1).drop_last() =~= sub.take(i - start));
            assert(sub.take(i - start + 1).last() == c);
        }
        let u = c as u32;
        let d: u64 = (u - 0x30) as u64;
        let step = match acc.checked_mul(10) {
            Some(x) => x.checked_add(d),
            None => None,
        };
        match step {
            Some(x) => {
                acc = x;
            },
            None => {
                proof {
                    assert(dec_val(sub.take(i - start + 1)) > u64::MAX);
                    lemma_dec_val_prefix(sub, i - start + 1);
                }
                return None;
            },
        }
        i = i + 1;
    }
    proof {
        assert(sub.take(end - start) =~= sub);
    }
    Some(acc)
}

/// Reads a fingerprint back from its persisted string; `None` for anything
/// that does not follow the framing exactly.
pub fn decode_units(s: &str) -> (r: Option<Message>)
    ensures
        (r is Some) == (dec_units(s@) is Some),
        r matches Some(m) ==> dec_units(s@) == Some(m@),
{
    let cs = str_chars(s);
    let len = cs.len();
    let mut units: Vec<Unit> = Vec::new();
    let mut pos: usize = 0;
    proof {
        assert(s@.skip(0) =~= s@);
    }
    while pos < len
        invariant
            pos <= len,
            len == cs@.len(),
            cs@ == s@,
            (dec_units(s@) is Some) == (dec_units(s@.skip(pos as int)) is Some),
            dec_units(s@.skip(pos as int)) matches Some(t) ==> dec_units(s@) == Some(
                units.deep_view() + t,
            ),
        decreases len - pos,
    {
        let ghost rem = s@.skip(pos as int);
        proof {
            assert(rem.len() == len - pos);
            assert(rem[0] == s@[pos as int]);
        }
        let tag = cs[pos];
        if !(tag == 'w' || tag == 'l') {
            return None;
        }
        let ghost rest = s@.skip(pos as int + 1);
        proof {
            assert(rest =~= rem.drop_first());
            assert(rest.len() == len - pos - 1);
        }
        let mut j = pos + 1;
        while j < len && is_digit_char(cs[j])
            invariant
                pos + 1 <= j <= len,
                len == cs@.len(),
                cs@ == s@,
                rest == s@.skip(pos as int + 1),
                digit_run(rest) == (j - pos - 1) + digit_run(s@.skip(j as int)),
                all_digits(s@.subrange(pos as int + 1, j as int)),
            decreases len - j,
        {
            proof {
                assert(s@.skip(j as int)[0] == s@[j as int]);
                assert(s@.skip(j as int).drop_first() =~= s@.skip(j as int + 1));
                assert(s@.subrange(pos as int + 1, j as int + 1) =~= s@.subrange(
                    pos as int + 1,
                    j as int,
                ).push(s@[j as int]));
            }
            j = j + 1;
        }
        proof {
            if j == len {
                assert(s@.skip(j as int).len() == 0);
            }
            assert(digit_run(s@.skip(j as int)) == 0);
            assert(digit_run(rest) == j - pos - 1);
        }
        let dl = j - pos - 1;
        if dl == 0 {
            return None;
        }
        if j >= len {
            return None;
        }
        let cj = cs[j];
        proof {
            assert(rest[dl as int] == s@[j as int]);
        }
        if cj != ':' {
            return None;
        }
        proof {
            assert(rest.take(dl as int) =~= s@.subrange(pos as int + 1, j as int));
        }
        let n64 = match parse_digits(&cs, pos + 1, j) {
            Some(v) => v,
            None => {
                proof {
                    assert(rest.len() - dl - 1 <= u64::MAX);
                }
                return None;
            },
        };
        let rem_chars = len - j - 1;
        if n64 > rem_chars as u64 {
            return None;
        }
        let n = n64 as usize;
        let ghost nn = n as int;
        proof {
            assert(dec_val(rest.take(dl as int)) == nn);
            assert(0 <= nn <= rest.len() - dl - 1);
        }
        let mut tv: Vec<char> = Vec::new();
        let mut k = j + 1;
        while k < j + 1 + n
            invariant
                j + 1 <= k <= j + 1 + n,
                j + 1 + n <= len,
                len == cs@.len(),
                cs@ == s@,
                tv@ =~= s@.subrange(j as int + 1, k as int),
            decreases j + 1 + n - k,
        {
            tv.push(cs[k]);
            k = k + 1;
        }
        let text = chars_to_string(&tv);
        let u = if tag == 'w' {
            Unit::Word(text)
        } else {
            Unit::Link(text)
        };
        let ghost uview = u@;
        let ghost before = units.deep_view();
        units.push(u);
        pos = j + 1 + n;
        proof {
            assert(rest.subrange(dl as int + 1, dl as int + 1 + nn) =~= s@.subrange(
                j as int + 1,
                j as int + 1 + nn,
            ));
            assert(tv@ == rest.subrange(dl as int + 1, dl as int + 1 + nn));
            assert(rest.skip(dl as int + 1 + nn) =~= s@.skip(pos as int));
            assert(dec_units(rem) == (match dec_units(s@.skip(pos as int)) {
                Option::None => None::<Seq<UnitView>>,
                Option::Some(t) => Some(seq![uview] + t),
            }));
            assert(units.deep_view() =~= before.push(uview));
            match dec_units(s@.skip(pos as int)) {
                Option::Some(t) => {
                    assert(dec_units(rem) == Some(seq![uview] + t));
                    assert(dec_units(s@) == Some(before + (seq![uview] + t)));
                    assert(before + (seq![uview] + t) =~= before.push(uview) + t);
                },
                Option::None => {},
            }
        }
    }
    proof {
        assert(s@.skip(len as int).len() == 0);
        assert(dec_units(s@.skip(pos as int)) == Some(Seq::<UnitView>::empty()));
        assert(units.deep_view() + Seq::<UnitView>::empty() =~= units.deep_view());
    }
    Some(Message { units })
}

} // verus!
