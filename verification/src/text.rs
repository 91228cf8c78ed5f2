//! Text normalization and fingerprinting.
//!
//! A message's content is reduced to a fingerprint: the ordered sequence of
//! its link spans, kept verbatim, and of its plain-text words, normalized.
//! Two contents with the same fingerprint count as duplicates.
//!
//! Plain text is split on whitespace; each token has leading and trailing
//! ASCII punctuation (apostrophe excepted) stripped, is discarded if nothing
//! remains, and is otherwise lowercased with its apostrophes removed.

use vstd::prelude::*;

verus! {

/// One unit of a fingerprint: a normalized word, or a link kept verbatim.
#[derive(Debug)]
pub enum Unit {
    Word(String),
    Link(String),
}

/// Mathematical form of a fingerprint unit.
#[verifier::ext_equal]
pub enum UnitView {
    Word(Seq<char>),
    Link(Seq<char>),
}

impl View for Unit {
    type V = UnitView;

    open spec fn view(&self) -> UnitView {
        match self {
            Unit::Word(s) => UnitView::Word(s@),
            Unit::Link(s) => UnitView::Link(s@),
        }
    }
}

impl DeepView for Unit {
    type V = UnitView;

    open spec fn deep_view(&self) -> UnitView {
        self.view()
    }
}

/// A message fingerprint: the canonical ordered unit sequence derived from
/// raw content. Equality is structural.
#[derive(Debug)]
pub struct Message {
    pub units: Vec<Unit>,
}

impl View for Message {
    type V = Seq<UnitView>;

    open spec fn view(&self) -> Seq<UnitView> {
        self.units.deep_view()
    }
}

/// How the link finder splits a text: the consecutive spans of the input,
/// each marked as link or plain text.
pub uninterp spec fn link_split(s: Seq<char>) -> Seq<(Seq<char>, bool)>;

/// The lowercase mapping of a character (one or more characters).
pub uninterp spec fn lower_char(c: char) -> Seq<char>;

/// Whether a character has the Unicode White_Space property.
pub uninterp spec fn space_char(c: char) -> bool;

/// Relies on linkify's `LinkFinder::spans` (URLs required to carry an
/// explicit scheme, as `Spans` yields them): the consecutive spans covering
/// the input, link spans marked; the split is a function of the text alone,
/// and an empty input yields no spans.
#[verifier::external_body]
fn find_link_spans(s: &str) -> (r: Vec<(String, bool)>)
    ensures
        r.deep_view() == link_split(s@),
        s@.len() == 0 ==> r@.len() == 0,
{
    linkify::LinkFinder::new()
        .url_must_have_scheme(true)
        .spans(s)
        .map(|sp| (sp.as_str().to_string(), sp.kind().is_some()))
        .collect()
}

/// Relies on char::to_lowercase: the lowercase mapping of the character,
/// a function of the character alone.
#[verifier::external_body]
fn char_to_lower(c: char) -> (r: Vec<char>)
    ensures
        r@ == lower_char(c),
{
    c.to_lowercase().collect()
}

/// Relies on char::is_whitespace: true exactly for characters with the
/// Unicode White_Space property.
#[verifier::external_body]
fn char_is_space(c: char) -> (r: bool)
    ensures
        r == space_char(c),
{
    c.is_whitespace()
}

/// Relies on str::chars: the characters of the string, in order.
#[verifier::external_body]
pub(crate) fn str_chars(s: &str) -> (r: Vec<char>)
    ensures
        r@ == s@,
{
    s.chars().collect()
}

/// Relies on String::from_iter over chars: the string holding exactly the
/// given characters, in order.
#[verifier::external_body]
pub(crate) fn chars_to_string(v: &Vec<char>) -> (r: String)
    ensures
        r@ == v@,
{
    v.iter().collect()
}

/// ASCII punctuation, apostrophe excepted: stripped from token edges.
pub open spec fn strippable(c: char) -> bool {
    &&& c != '\''
    &&& {
        ||| 0x21 <= (c as u32) && (c as u32) <= 0x2f
        ||| 0x3a <= (c as u32) && (c as u32) <= 0x40
        ||| 0x5b <= (c as u32) && (c as u32) <= 0x60
        ||| 0x7b <= (c as u32) && (c as u32) <= 0x7e
    }
}

fn is_strippable(c: char) -> (r: bool)
    ensures
        r == strippable(c),
{
    let u = c as u32;
    c != '\'' && (
        (0x21 <= u && u <= 0x2f)
        || (0x3a <= u && u <= 0x40)
        || (0x5b <= u && u <= 0x60)
        || (0x7b <= u && u <= 0x7e)
    )
}

/// The token without its leading strippable characters.
pub open spec fn strip_leading(t: Seq<char>) -> Seq<char>
    decreases t.len(),
{
    if t.len() > 0 && strippable(t[0]) {
        strip_leading(t.drop_first())
    } else {
        t
    }
}

/// The token without its trailing strippable characters.
pub open spec fn strip_trailing(t: Seq<char>) -> Seq<char>
    decreases t.len(),
{
    if t.len() > 0 && strippable(t.last()) {
        strip_trailing(t.drop_last())
    } else {
        t
    }
}

/// The token with strippable characters removed from both edges.
pub open spec fn strip_token(t: Seq<char>) -> Seq<char> {
    strip_trailing(strip_leading(t))
}

/// The normalized body of a stripped token: apostrophes removed, every
/// remaining character replaced by its lowercase mapping.
pub open spec fn norm_word(t: Seq<char>) -> Seq<char>
    decreases t.len(),
{
    if t.len() == 0 {
        Seq::empty()
    } else {
        norm_word(t.drop_last()) + (if t.last() == '\'' {
            Seq::<char>::empty()
        } else {
            lower_char(t.last())
        })
    }
}

/// The units a single whitespace-delimited token contributes: none if
/// stripping leaves nothing, else one normalized word.
pub open spec fn token_units(t: Seq<char>) -> Seq<UnitView> {
    let s = strip_token(t);
    if s.len() == 0 {
        Seq::empty()
    } else {
        seq![UnitView::Word(norm_word(s))]
    }
}

/// The word units of a plain-text span: `t` is the text still to scan and
/// `cur` the token accumulated so far.
pub open spec fn split_words(t: Seq<char>, cur: Seq<char>) -> Seq<UnitView>
    decreases t.len(),
{
    if t.len() == 0 {
        token_units(cur)
    } else if space_char(t[0]) {
        token_units(cur) + split_words(t.drop_first(), Seq::empty())
    } else {
        split_words(t.drop_first(), cur.push(t[0]))
    }
}

/// The units one span contributes: a non-empty link span is kept verbatim,
/// a plain-text span is split into normalized words.
pub open spec fn span_units(text: Seq<char>, is_link: bool) -> Seq<UnitView> {
    if is_link {
        if text.len() == 0 {
            Seq::empty()
        } else {
            seq![UnitView::Link(text)]
        }
    } else {
        split_words(text, Seq::empty())
    }
}

/// The units of a whole span sequence, in order.
pub open spec fn units_of_spans(spans: Seq<(Seq<char>, bool)>) -> Seq<UnitView>
    decreases spans.len(),
{
    if spans.len() == 0 {
        Seq::empty()
    } else {
        units_of_spans(spans.drop_last()) + span_units(spans.last().0, spans.last().1)
    }
}

/// The fingerprint of raw content: the unit sequence of its link split.
pub open spec fn fingerprint(s: Seq<char>) -> Seq<UnitView> {
    units_of_spans(link_split(s))
}

/// Strips, normalizes and appends the accumulated token, if anything
/// survives stripping.
fn finish_token(units: &mut Vec<Unit>, cur: &Vec<char>)
    ensures
        final(units).deep_view() == old(units).deep_view() + token_units(cur@),
{
    let ghost t = cur@;
    proof {
        assert(t.skip(0) =~= t);
    }
    let mut start: usize = 0;
    while start < cur.len() && is_strippable(cur[start])
        invariant
            start <= t.len(),
            cur@ == t,
            strip_leading(t) == strip_leading(t.skip(start as int)),
        decreases t.len() - start,
    {
        proof {
            assert(t.skip(start as int).drop_first() =~= t.skip(start as int + 1));
        }
        start = start + 1;
    }
    proof {
        assert(strip_leading(t.skip(start as int)) == t.skip(start as int));
        assert(strip_leading(t) == t.skip(start as int));
    }
    let mut end: usize = cur.len();
    while end > start && is_strippable(cur[end - 1])
        invariant
            start <= end <= t.len(),
            cur@ == t,
            strip_leading(t) == t.skip(start as int),
            strip_trailing(t.skip(start as int)) == strip_trailing(t.subrange(start as int, end as int)),
        decreases end,
    {
        proof {
            assert(t.subrange(start as int, end as int).drop_last() =~= t.subrange(
                start as int,
                end as int - 1,
            ));
        }
        end = end - 1;
    }
    let ghost stripped = t.subrange(start as int, end as int);
    proof {
        assert(strip_trailing(stripped) == stripped);
        assert(strip_token(t) == stripped);
    }
    if end == start {
        proof {
            assert(units.deep_view() =~= old(units).deep_view() + token_units(t));
        }
        return ;
    }
    let mut nv: Vec<char> = Vec::new();
    let mut k: usize = start;
    while k < end
        invariant
            start <= k <= end <= t.len(),
            cur@ == t,
            stripped == t.subrange(start as int, end as int),
            nv@ == norm_word(stripped.take(k - start)),
        decreases end - k,
    {
        proof {
            assert(stripped.take(k - start + 1).drop_last() =~= stripped.take(k - start));
            assert(stripped.take(k - start + 1).last() == t[k as int]);
        }
        let c = cur[k];
        if c != '\'' {
            let mut lw = char_to_lower(c);
            nv.append(&mut lw);
        }
        k = k + 1;
    }
    proof {
        assert(stripped.take(end - start) =~= stripped);
    }
    let w = chars_to_string(&nv);
    units.push(Unit::Word(w));
    proof {
        assert(units.deep_view() =~= old(units).deep_view() + token_units(t));
    }
}

impl Message {
    /// Computes the fingerprint of raw content in one forward scan.
    pub fn from(content: &str) -> (r: Message)
        ensures
            r@ == fingerprint(content@),
    {
        let spans = find_link_spans(content);
        let ghost sp = link_split(content@);
        let mut units: Vec<Unit> = Vec::new();
        let mut i: usize = 0;
        while i < spans.len()
            invariant
                i <= sp.len(),
                spans.deep_view() == sp,
                spans@.len() == sp.len(),
                units.deep_view() == units_of_spans(sp.take(i as int)),
            decreases sp.len() - i,
        {
            proof {
                assert(sp.take(i as int + 1).drop_last() =~= sp.take(i as int));
                assert(spans@[i as int].0@ == sp[i as int].0);
                assert(spans@[i as int].1 == sp[i as int].1);
            }
            let span = &spans[i];
            if span.1 {
                if !span.0.as_str().is_empty() {
                    let ghost before = units.deep_view();
                    units.push(Unit::Link(span.0.clone()));
                    proof {
                        assert(units.deep_view() =~= before + span_units(
                            sp[i as int].0,
                            sp[i as int].1,
                        ));
                    }
                }
            } else {
                let chars = str_chars(span.0.as_str());
                let ghost text = sp[i as int].0;
                let mut cur: Vec<char> = Vec::new();
                let mut j: usize = 0;
                proof {
                    assert(text.skip(0) =~= text);
                }
                while j < chars.len()
                    invariant
                        j <= text.len(),
                        chars@ == text,
                        units_of_spans(sp.take(i as int)) + split_words(text, Seq::empty())
                            =~= units.deep_view() + split_words(text.skip(j as int), cur@),
                    decreases text.len() - j,
                {
                    proof {
                        assert(text.skip(j as int).drop_first() =~= text.skip(j as int + 1));
                        assert(text.skip(j as int)[0] == text[j as int]);
                    }
                    let c = chars[j];
                    if char_is_space(c) {
                        finish_token(&mut units, &cur);
                        cur.clear();
                    } else {
                        cur.push(c);
                    }
                    j = j + 1;
                }
                proof {
                    assert(text.skip(text.len() as int) =~= Seq::<char>::empty());
                }
                finish_token(&mut units, &cur);
                proof {
                    assert(units.deep_view() =~= units_of_spans(sp.take(i as int)) + span_units(
                        sp[i as int].0,
                        sp[i as int].1,
                    ));
                }
            }
            i = i + 1;
            proof {
                assert(units.deep_view() =~= units_of_spans(sp.take(i as int)));
            }
        }
        proof {
            assert(sp.take(sp.len() as int) =~= sp);
        }
        Message { units }
    }
}

impl PartialEq for Unit {
    fn eq(&self, other: &Unit) -> bool {
        match (self, other) {
            (Unit::Word(a), Unit::Word(b)) => a.eq(b),
            (Unit::Link(a), Unit::Link(b)) => a.eq(b),
            _ => false,
        }
    }
}

impl Eq for Unit {
}

impl vstd::std_specs::cmp::PartialEqSpecImpl for Unit {
    open spec fn obeys_eq_spec() -> bool {
        true
    }

    open spec fn eq_spec(&self, other: &Unit) -> bool {
        self@ == other@
    }
}

impl PartialEq for Message {
    fn eq(&self, other: &Message) -> bool {
        if self.units.len() != other.units.len() {
            assert(self.units.deep_view().len() != other.units.deep_view().len());
            return false;
        }
        let n = self.units.len();
        let mut i: usize = 0;
        while i < n
            invariant
                i <= n,
                n == self.units@.len() == other.units@.len(),
                forall|k: int| 0 <= k < i ==> self.units@[k]@ == other.units@[k]@,
            decreases n - i,
        {
            let a = &self.units[i];
            let b = &other.units[i];
            if !a.eq(b) {
                assert(self.units.deep_view()[i as int] != other.units.deep_view()[i as int]);
                return false;
            }
            i = i + 1;
        }
        proof {
            assert(self.units.deep_view() =~= other.units.deep_view());
        }
        true
    }
}

impl Eq for Message {
}

impl vstd::std_specs::cmp::PartialEqSpecImpl for Message {
    open spec fn obeys_eq_spec() -> bool {
        true
    }

    open spec fn eq_spec(&self, other: &Message) -> bool {
        self@ == other@
    }
}

} // verus!
