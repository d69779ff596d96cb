//! The recursive-descent decoder: a cursor over the input buffer that
//! descends into nested lists with an explicit position-save stack, and
//! the typed entry points built on it.

use vstd::prelude::*;
use vstd::slice::{slice_subrange, slice_to_vec};

use crate::error::Error;
use crate::rlp::{decode_length, lemma_decode_length_fits, spec_decode_length,
    DecodeLengthResult, ExpectedType};

verus! {

/// The mathematical shape of a decoded value: a byte string, or a list
/// of further values.
pub enum SpecValue {
    /// A byte string payload.
    Bytes(Seq<u8>),
    /// An ordered list of nested values.
    List(Seq<SpecValue>),
}

/// A decoded value: a byte string, or a list of further values.
#[derive(Debug, PartialEq, Eq)]
pub enum RlpValue {
    /// A byte string payload, kept raw; see `text_of` for text.
    Bytes(Vec<u8>),
    /// An ordered list of nested values.
    List(Vec<RlpValue>),
}

/// The mathematical trees that a sequence of values stands for.
pub open spec fn deep_seq(s: Seq<RlpValue>) -> Seq<SpecValue>
    decreases s,
{
    if s.len() == 0 {
        Seq::empty()
    } else {
        seq![s[0].deep()] + deep_seq(s.drop_first())
    }
}

impl RlpValue {
    /// The mathematical tree this value stands for.
    pub open spec fn deep(self) -> SpecValue
        decreases self,
    {
        match self {
            RlpValue::Bytes(b) => SpecValue::Bytes(b@),
            RlpValue::List(items) => SpecValue::List(deep_seq(items@)),
        }
    }
}

/// `deep_seq` maps each value of a sequence to its tree, in place.
pub proof fn lemma_deep_seq_props(s: Seq<RlpValue>)
    ensures
        deep_seq(s).len() == s.len(),
        forall|i: int| 0 <= i < s.len() ==> deep_seq(s)[i] == (#[trigger] s[i]).deep(),
    decreases s.len(),
{
    if s.len() > 0 {
        lemma_deep_seq_props(s.drop_first());
        assert forall|i: int| 0 <= i < s.len() implies deep_seq(s)[i] == (#[trigger] s[i]).deep() by {
            if i > 0 {
                assert(deep_seq(s)[i] == deep_seq(s.drop_first())[i - 1]);
                assert(s.drop_first()[i - 1] == s[i]);
            }
        }
    }
}

/// Parses `s` as a run of items laid end to end until it is exhausted;
/// a list body carries no count, so the number of items is discovered
/// only here.
pub open spec fn spec_parse_items(s: Seq<u8>) -> Result<Seq<SpecValue>, Error>
    decreases s.len(),
    via spec_parse_items_dec
{
    if s.len() == 0 {
        Ok(Seq::empty())
    } else {
        match spec_decode_length(s) {
            Err(e) => Err(e),
            Ok(t) => {
                let first: Result<SpecValue, Error> = if t.2 == ExpectedType::StringType {
                    Ok(SpecValue::Bytes(s.subrange(t.0, t.0 + t.1)))
                } else {
                    match spec_parse_items(s.subrange(t.0, t.0 + t.1)) {
                        Ok(vs) => Ok(SpecValue::List(vs)),
                        Err(e) => Err(e),
                    }
                };
                match first {
                    Err(e) => Err(e),
                    Ok(v) => match spec_parse_items(s.subrange(t.0 + t.1, s.len() as int)) {
                        Ok(rest) => Ok(seq![v] + rest),
                        Err(e) => Err(e),
                    },
                }
            },
        }
    }
}

#[via_fn]
proof fn spec_parse_items_dec(s: Seq<u8>) {
    lemma_decode_length_fits(s);
}

/// Parses the single item at the head of `s` and counts the bytes it
/// spans, or yields the error the malformed input earns.
pub open spec fn spec_parse_item(s: Seq<u8>) -> Result<(SpecValue, int), Error> {
    match spec_decode_length(s) {
        Err(e) => Err(e),
        Ok(t) => {
            if t.2 == ExpectedType::StringType {
                Ok((SpecValue::Bytes(s.subrange(t.0, t.0 + t.1)), t.0 + t.1))
            } else {
                match spec_parse_items(s.subrange(t.0, t.0 + t.1)) {
                    Ok(items) => Ok((SpecValue::List(items), t.0 + t.1)),
                    Err(e) => Err(e),
                }
            }
        },
    }
}

/// Mapping to trees commutes with appending one value.
pub proof fn lemma_deep_seq_push(s: Seq<RlpValue>, x: RlpValue)
    ensures
        deep_seq(s.push(x)) == deep_seq(s).push(x.deep()),
{
    lemma_deep_seq_props(s);
    lemma_deep_seq_props(s.push(x));
    assert forall|i: int| 0 <= i < s.len() + 1 implies deep_seq(s.push(x))[i] == deep_seq(
        s,
    ).push(x.deep())[i] by {
        if i < s.len() {
            assert(s.push(x)[i] == s[i]);
        } else {
            assert(s.push(x)[i] == x);
        }
    }
    assert(deep_seq(s.push(x)) =~= deep_seq(s).push(x.deep()));
}

/// Names what `String::from_utf8` yields on each byte sequence: `None`
/// where the bytes are not valid UTF-8, otherwise the decoded
/// characters, a function of the bytes alone.
pub uninterp spec fn utf8_decode(bytes: Seq<u8>) -> Option<Seq<char>>;

/// Relies on String::from_utf8: whether a byte sequence is valid UTF-8,
/// and which characters it decodes to, depend on the bytes alone.
#[verifier::external_body]
fn bytes_to_string(b: Vec<u8>) -> (r: Option<String>)
    ensures
        match r {
            Some(s) => utf8_decode(b@) == Some(s@),
            None => utf8_decode(b@) is None,
        },
{
    String::from_utf8(b).ok()
}

/// The decoder state: a view into the original buffer that shrinks as
/// bytes are consumed, the offset of the last consumed payload (used
/// only for the trailing-bytes check), and the LIFO stack of saved
/// outer views that makes returning from a nested list possible.
pub struct Deserializer {
    buf: Vec<u8>,
    start: usize,
    end: usize,
    last_offset: usize,
    /// Saved `(start, end)` view bounds for each open nested list.
    stack: Vec<(usize, usize)>,
}

impl Deserializer {
    /// The whole buffer this decoder was built over.
    pub closed spec fn whole(self) -> Seq<u8> {
        self.buf@
    }

    /// The unread part of the buffer: the decoder's current view.
    pub closed spec fn current(self) -> Seq<u8> {
        self.buf@.subrange(self.start as int, self.end as int)
    }

    /// The saved outer views, innermost last.
    pub closed spec fn saved(self) -> Seq<Seq<u8>> {
        Seq::new(
            self.stack@.len(),
            |i: int| self.buf@.subrange(self.stack@[i].0 as int, self.stack@[i].1 as int),
        )
    }

    /// How many bytes of the most recently consumed payload span.
    pub closed spec fn last_off(self) -> nat {
        self.last_offset as nat
    }

    /// The view bounds and every saved entry lie inside the buffer.
    pub closed spec fn wf(self) -> bool {
        &&& self.start <= self.end <= self.buf@.len()
        &&& forall|i: int|
            0 <= i < self.stack@.len() ==> (#[trigger] self.stack@[i]).0 <= self.stack@[i].1
                <= self.buf@.len()
    }

    /// True when nothing observable about the decoder changed.
    pub open spec fn unchanged_from(self, other: Deserializer) -> bool {
        &&& self.whole() == other.whole()
        &&& self.current() == other.current()
        &&& self.saved() == other.saved()
        &&& self.last_off() == other.last_off()
    }

    /// Builds a decoder over a copy of `input`, viewing all of it.
    pub fn from_bytes(input: &[u8]) -> (r: Deserializer)
        ensures
            r.wf(),
            r.whole() == input@,
            r.current() == input@,
            r.saved().len() == 0,
            r.last_off() == 0,
    {
        let buf = slice_to_vec(input);
        let end = buf.len();
        let r = Deserializer { buf, start: 0, end, last_offset: 0, stack: Vec::new() };
        proof {
            assert(r.current() =~= input@);
        }
        r
    }

    /// The current view as a slice.
    fn current_slice(&self) -> (r: &[u8])
        requires
            self.wf(),
        ensures
            r@ == self.current(),
    {
        slice_subrange(self.buf.as_slice(), self.start, self.end)
    }

    /// Length of the current view.
    pub fn view_len(&self) -> (r: usize)
        requires
            self.wf(),
        ensures
            r == self.current().len(),
    {
        self.end - self.start
    }

    /// How many outer views are saved: the current list-nesting depth.
    pub fn stack_depth(&self) -> (r: usize)
        ensures
            r == self.saved().len(),
    {
        self.stack.len()
    }

    /// The `last_offset` counter, for the trailing-bytes check.
    pub fn last_offset(&self) -> (r: usize)
        ensures
            r == self.last_off(),
    {
        self.last_offset
    }

    /// Decodes the header at the head of the current view, or reports
    /// that the view is exhausted: how a list learns it has no more
    /// elements.
    pub fn cursor_header(&self) -> (r: Result<Option<DecodeLengthResult>, Error>)
        requires
            self.wf(),
        ensures
            self.current().len() == 0 ==> (r matches Ok(h) && h is None),
            self.current().len() > 0 ==> (match spec_decode_length(self.current()) {
                Ok(t) => r matches Ok(h) && h matches Some(d) && d.offset == t.0 && d.length
                    == t.1 && d.expected_type == t.2,
                Err(e) => r matches Err(a) && a == e,
            }),
    {
        if self.view_len() == 0 {
            return Ok(None);
        }
        match decode_length(self.current_slice()) {
            Ok(h) => Ok(Some(h)),
            Err(e) => Err(e),
        }
    }

    /// Copies the string payload at the head of the current view out as
    /// raw bytes, without advancing; per the header, a leaf operation.
    pub fn parse_bytes(&self) -> (r: Result<Vec<u8>, Error>)
        requires
            self.wf(),
        ensures
            match spec_decode_length(self.current()) {
                Err(e) => r matches Err(a) && a == e,
                Ok(t) => {
                    if t.2 == ExpectedType::StringType {
                        r matches Ok(b) && b@ == self.current().subrange(t.0, t.0 + t.1)
                    } else {
                        r matches Err(a) && a == Error::ExpectedString
                    }
                },
            },
    {
        let view = self.current_slice();
        match decode_length(view) {
            Err(e) => Err(e),
            Ok(h) => {
                if matches!(h.expected_type, ExpectedType::StringType) {
                    proof {
                        lemma_decode_length_fits(self.current());
                    }
                    Ok(slice_to_vec(slice_subrange(view, h.offset, h.offset + h.length)))
                } else {
                    Err(Error::ExpectedString)
                }
            },
        }
    }

    /// Decodes the string at the head of the current view as text and
    /// records how many bytes it spanned in `last_offset`; the view
    /// itself does not advance.
    pub fn parse_string(&mut self) -> (r: Result<String, Error>)
        requires
            old(self).wf(),
        ensures
            final(self).wf(),
            final(self).whole() == old(self).whole(),
            final(self).current() == old(self).current(),
            final(self).saved() == old(self).saved(),
            match spec_decode_length(old(self).current()) {
                Err(e) => r matches Err(a) && a == e && final(self).last_off() == old(self).last_off(),
                Ok(t) => {
                    if t.2 == ExpectedType::StringType {
                        match utf8_decode(old(self).current().subrange(t.0, t.0 + t.1)) {
                            Some(cs) => r matches Ok(s) && s@ == cs && final(self).last_off() == t.0
                                + t.1,
                            None => r matches Err(a) && a == Error::InvalidString
                                && final(self).last_off() == old(self).last_off(),
                        }
                    } else {
                        r matches Err(a) && a == Error::ExpectedString && final(self).last_off()
                            == old(self).last_off()
                    }
                },
            },
    {
        let payload = match self.parse_bytes() {
            Ok(b) => b,
            Err(e) => {
                return Err(e);
            },
        };
        let h = match decode_length(self.current_slice()) {
            Ok(h) => h,
            Err(_) => {
                proof {
                    assert(false);
                }
                return Err(Error::WrongPrefix);
            },
        };
        match bytes_to_string(payload) {
            Some(s) => {
                proof {
                    lemma_decode_length_fits(self.current());
                }
                self.last_offset = h.offset + h.length;
                proof {
                    assert(self.current() =~= old(self).current());
                    assert(self.saved() =~~= old(self).saved());
                }
                Ok(s)
            },
            None => Err(Error::InvalidString),
        }
    }

    /// Enters the list at the head of the current view: saves the view
    /// on the stack and replaces it with the list body. The matching
    /// restore is the caller's duty, never this function's.
    pub fn begin_seq(&mut self) -> (r: Result<(), Error>)
        requires
            old(self).wf(),
        ensures
            final(self).wf(),
            final(self).whole() == old(self).whole(),
            final(self).last_off() == old(self).last_off(),
            match spec_decode_length(old(self).current()) {
                Err(e) => r matches Err(a) && a == e && final(self).unchanged_from(*old(self)),
                Ok(t) => {
                    if t.2 == ExpectedType::ListType {
                        r is Ok && final(self).saved() == old(self).saved().push(old(self).current())
                            && final(self).current() == old(self).current().subrange(t.0, t.0 + t.1)
                    } else {
                        r matches Err(a) && a == Error::ExpectedList && final(self).unchanged_from(
                            *old(self))
                    }
                },
            },
    {
        let h = match decode_length(self.current_slice()) {
            Ok(h) => h,
            Err(e) => {
                return Err(e);
            },
        };
        if !matches!(h.expected_type, ExpectedType::ListType) {
            return Err(Error::ExpectedList);
        }
        proof {
            lemma_decode_length_fits(self.current());
        }
        self.stack.push((self.start, self.end));
        let new_start = self.start + h.offset;
        self.end = new_start + h.length;
        self.start = new_start;
        proof {
            assert(self.saved() =~~= old(self).saved().push(old(self).current()));
            assert(self.current() =~= old(self).current().subrange(
                spec_decode_length(old(self).current())->Ok_0.0,
                spec_decode_length(old(self).current())->Ok_0.0 + spec_decode_length(
                    old(self).current())->Ok_0.1,
            ));
        }
        Ok(())
    }

    /// Consumes `n` bytes from the front of the current view: how the
    /// element iteration steps past a finished element.
    pub fn advance(&mut self, n: usize)
        requires
            old(self).wf(),
            n <= old(self).current().len(),
        ensures
            final(self).wf(),
            final(self).whole() == old(self).whole(),
            final(self).saved() == old(self).saved(),
            final(self).last_off() == old(self).last_off(),
            final(self).current() == old(self).current().subrange(
                n as int,
                old(self).current().len() as int,
            ),
    {
        self.start = self.start + n;
        proof {
            assert(self.saved() =~~= old(self).saved());
            assert(self.current() =~= old(self).current().subrange(
                n as int,
                old(self).current().len() as int,
            ));
        }
    }

    /// Pops the most recently saved outer view and makes it current
    /// again: performed by the caller of a nested decode, never by the
    /// nested decode itself.
    pub fn pop_restore(&mut self)
        requires
            old(self).wf(),
            old(self).saved().len() >= 1,
        ensures
            final(self).wf(),
            final(self).whole() == old(self).whole(),
            final(self).last_off() == old(self).last_off(),
            final(self).current() == old(self).saved().last(),
            final(self).saved() == old(self).saved().drop_last(),
    {
        match self.stack.pop() {
            Some(entry) => {
                self.start = entry.0;
                self.end = entry.1;
                proof {
                    assert(old(self).stack@[old(self).stack@.len() - 1].0 <= old(
                        self,
                    ).stack@[old(self).stack@.len() - 1].1 <= old(self).buf@.len());
                    assert(self.saved() =~~= old(self).saved().drop_last());
                }
            },
            None => {
                proof {
                    assert(false);
                }
            },
        }
    }


    /// Decodes the list at the head of the current view into its
    /// elements. The view is saved on the stack and replaced by the
    /// list body; elements are pulled one at a time until the body is
    /// exhausted, nested lists recursing through this same function.
    /// The saved entry is deliberately not popped here: restoring the
    /// outer view is the duty of whichever caller entered the nested
    /// decode; the top-level caller simply discards the decoder.
    pub fn decode_seq(&mut self) -> (r: Result<Vec<RlpValue>, Error>)
        requires
            old(self).wf(),
        ensures
            final(self).wf(),
            final(self).whole() == old(self).whole(),
            final(self).last_off() == old(self).last_off(),
            match spec_decode_length(old(self).current()) {
                Err(e) => (r matches Err(a) && a == e && final(self).unchanged_from(
                    *old(self))),
                Ok(t) => {
                    if t.2 == ExpectedType::ListType {
                        match spec_parse_items(old(self).current().subrange(t.0, t.0 + t.1)) {
                            Ok(vs) => (r matches Ok(items) && deep_seq(items@) == vs
                                && final(self).saved() == old(self).saved().push(
                                old(self).current()) && final(self).current().len() == 0),
                            Err(e) => (r matches Err(a) && a == e),
                        }
                    } else {
                        (r matches Err(a) && a == Error::ExpectedList
                            && final(self).unchanged_from(*old(self)))
                    }
                },
            },
        decreases old(self).current().len(),
    {
        let ghost orig = *self;
        match self.begin_seq() {
            Ok(u) => u,
            Err(e) => {
                return Err(e);
            },
        };
        let ghost t = spec_decode_length(orig.current())->Ok_0;
        let ghost body = orig.current().subrange(t.0, t.0 + t.1);
        proof {
            lemma_decode_length_fits(orig.current());
        }
        let mut items: Vec<RlpValue> = Vec::new();
        let ghost mut consumed: int = 0;
        proof {
            assert(body.subrange(0, body.len() as int) =~= body);
            assert(deep_seq(items@) =~= Seq::<SpecValue>::empty());
            if spec_parse_items(body) is Ok {
                assert(deep_seq(items@) + spec_parse_items(body)->Ok_0 =~= spec_parse_items(
                    body,
                )->Ok_0);
            }
        }
        while self.view_len() > 0
            invariant
                orig == *old(self),
                self.wf(),
                self.whole() == orig.whole(),
                self.last_off() == orig.last_off(),
                self.saved() == orig.saved().push(orig.current()),
                spec_decode_length(orig.current()) == Ok::<(int, int, ExpectedType), Error>(t),
                t.2 == ExpectedType::ListType,
                1 <= t.0,
                t.0 + t.1 <= orig.current().len(),
                body == orig.current().subrange(t.0, t.0 + t.1),
                0 <= consumed <= body.len(),
                self.current() == body.subrange(consumed, body.len() as int),
                spec_parse_items(body) == (match spec_parse_items(
                    body.subrange(consumed, body.len() as int),
                ) {
                    Ok(rest) => Ok::<Seq<SpecValue>, Error>(deep_seq(items@) + rest),
                    Err(e) => Err::<Seq<SpecValue>, Error>(e),
                }),
            decreases body.len() - consumed,
        {
            let ghost rem = self.current();
            let ghost old_items = items@;
            let h = match self.cursor_header() {
                Ok(Some(h)) => h,
                Ok(None) => {
                    proof {
                        assert(false);
                    }
                    return Err(Error::EmptyBuffer);
                },
                Err(e) => {
                    return Err(e);
                },
            };
            let ghost trem = spec_decode_length(rem)->Ok_0;
            proof {
                lemma_decode_length_fits(rem);
            }
            let n = h.offset + h.length;
            if matches!(h.expected_type, ExpectedType::StringType) {
                let payload = match self.parse_bytes() {
                    Ok(b) => b,
                    Err(e) => {
                        proof {
                            assert(false);
                        }
                        return Err(e);
                    },
                };
                let ghost velem = RlpValue::Bytes(payload);
                self.advance(n);
                items.push(RlpValue::Bytes(payload));
                proof {
                    lemma_deep_seq_push(old_items, velem);
                    let rem2 = body.subrange(consumed + n, body.len() as int);
                    assert(rem.subrange(n as int, rem.len() as int) =~= rem2);
                    if spec_parse_items(rem2) is Ok {
                        let rest2 = spec_parse_items(rem2)->Ok_0;
                        assert(deep_seq(old_items) + (seq![velem.deep()] + rest2)
                            =~= deep_seq(items@) + rest2);
                    }
                    consumed = consumed + n;
                }
            } else {
                proof {
                    assert(self.current().len() < old(self).current().len());
                }
                let sub = match self.decode_seq() {
                    Ok(s) => s,
                    Err(e) => {
                        return Err(e);
                    },
                };
                let ghost velem = RlpValue::List(sub);
                self.pop_restore();
                proof {
                    assert(orig.saved().push(orig.current()).push(rem).drop_last()
                        =~= orig.saved().push(orig.current()));
                    assert(self.current() == rem);
                }
                self.advance(n);
                items.push(RlpValue::List(sub));
                proof {
                    lemma_deep_seq_push(old_items, velem);
                    let rem2 = body.subrange(consumed + n, body.len() as int);
                    assert(rem.subrange(n as int, rem.len() as int) =~= rem2);
                    if spec_parse_items(rem2) is Ok {
                        let rest2 = spec_parse_items(rem2)->Ok_0;
                        assert(deep_seq(old_items) + (seq![velem.deep()] + rest2)
                            =~= deep_seq(items@) + rest2);
                    }
                    consumed = consumed + n;
                }
            }
        }
        proof {
            assert(consumed == body.len());
            assert(body.subrange(consumed, body.len() as int).len() == 0);
            if spec_parse_items(body) is Ok {
                assert(deep_seq(items@) + Seq::<SpecValue>::empty() =~= deep_seq(items@));
            }
        }
        Ok(items)
    }

    /// Extension point: booleans are not part of the supported
    /// encoding; decoding one always fails, explicitly.
    pub fn parse_bool(&mut self) -> (r: Result<bool, Error>)
        requires
            old(self).wf(),
        ensures
            final(self).wf(),
            final(self).unchanged_from(*old(self)),
            r matches Err(Error::Message(m)) && m@ == "boolean values are not supported"@,
    {
        Err(Error::Message("boolean values are not supported".to_owned()))
    }

    /// Extension point: unsigned integers are not part of the supported
    /// encoding yet; decoding one always fails, explicitly.
    pub fn parse_unsigned(&mut self) -> (r: Result<u64, Error>)
        requires
            old(self).wf(),
        ensures
            final(self).wf(),
            final(self).unchanged_from(*old(self)),
            r matches Err(Error::Message(m)) && m@ == "unsigned values are not supported"@,
    {
        Err(Error::Message("unsigned values are not supported".to_owned()))
    }

    /// Extension point: signed integers are not part of the supported
    /// encoding yet; decoding one always fails, explicitly.
    pub fn parse_signed(&mut self) -> (r: Result<i64, Error>)
        requires
            old(self).wf(),
        ensures
            final(self).wf(),
            final(self).unchanged_from(*old(self)),
            r matches Err(Error::Message(m)) && m@ == "signed values are not supported"@,
    {
        Err(Error::Message("signed values are not supported".to_owned()))
    }
}


/// Decodes the one complete value that `input` holds: the produced
/// entry point of the decoder. After a successful parse, unconsumed
/// bytes beyond the value's span earn `TrailingBytes`; an empty input
/// has no header at all and earns `EmptyBuffer`.
pub fn from_bytes(input: &[u8]) -> (r: Result<RlpValue, Error>)
    ensures
        match spec_parse_item(input@) {
            Err(e) => (r matches Err(a) && a == e),
            Ok(t) => {
                if t.1 == input@.len() || input@.len() == 0 {
                    (r matches Ok(v) && v.deep() == t.0)
                } else {
                    r == Err::<RlpValue, Error>(Error::TrailingBytes)
                }
            },
        },
{
    let mut de = Deserializer::from_bytes(input);
    let h = match decode_length(input) {
        Ok(h) => h,
        Err(e) => {
            return Err(e);
        },
    };
    proof {
        lemma_decode_length_fits(input@);
    }
    let v = if matches!(h.expected_type, ExpectedType::StringType) {
        let payload = match de.parse_bytes() {
            Ok(b) => b,
            Err(e) => {
                proof {
                    assert(false);
                }
                return Err(e);
            },
        };
        RlpValue::Bytes(payload)
    } else {
        let items = match de.decode_seq() {
            Ok(items) => items,
            Err(e) => {
                return Err(e);
            },
        };
        RlpValue::List(items)
    };
    let consumed = h.offset + h.length;
    if consumed == input.len() || input.len() == 0 {
        Ok(v)
    } else {
        Err(Error::TrailingBytes)
    }
}

/// Decodes `input` as a single text string, with the trailing-bytes
/// discipline of the cursor protocol: the recorded `last_offset` must
/// reach the end of the view that is left when the decode is done.
pub fn decode_string(input: &[u8]) -> (r: Result<String, Error>)
    ensures
        match spec_decode_length(input@) {
            Err(e) => (r matches Err(a) && a == e),
            Ok(t) => {
                if t.2 == ExpectedType::ListType {
                    r == Err::<String, Error>(Error::ExpectedString)
                } else {
                    match utf8_decode(input@.subrange(t.0, t.0 + t.1)) {
                        None => r == Err::<String, Error>(Error::InvalidString),
                        Some(cs) => {
                            if t.0 + t.1 == input@.len() || input@.len() == 0 {
                                (r matches Ok(s) && s@ == cs)
                            } else {
                                r == Err::<String, Error>(Error::TrailingBytes)
                            }
                        },
                    }
                }
            },
        },
{
    let mut de = Deserializer::from_bytes(input);
    let s = match de.parse_string() {
        Ok(s) => s,
        Err(e) => {
            return Err(e);
        },
    };
    proof {
        lemma_decode_length_fits(input@);
    }
    if de.last_offset() == de.view_len() || de.view_len() == 0 {
        Ok(s)
    } else {
        Err(Error::TrailingBytes)
    }
}

/// Reads a decoded value as text: the payload of a string value,
/// decoded as UTF-8.
pub fn text_of(v: &RlpValue) -> (r: Result<String, Error>)
    ensures
        match *v {
            RlpValue::List(_) => r == Err::<String, Error>(Error::ExpectedString),
            RlpValue::Bytes(b) => match utf8_decode(b@) {
                None => r == Err::<String, Error>(Error::InvalidString),
                Some(cs) => (r matches Ok(s) && s@ == cs),
            },
        },
{
    match v {
        RlpValue::List(_) => Err(Error::ExpectedString),
        RlpValue::Bytes(b) => match bytes_to_string(slice_to_vec(b.as_slice())) {
            Some(s) => Ok(s),
            None => Err(Error::InvalidString),
        },
    }
}

/// The texts of a run of trees: every tree must be a byte string whose
/// bytes are valid UTF-8, and the first offending tree's error wins.
pub open spec fn spec_texts(items: Seq<SpecValue>) -> Result<Seq<Seq<char>>, Error>
    decreases items.len(),
{
    if items.len() == 0 {
        Ok(Seq::empty())
    } else {
        match items[0] {
            SpecValue::List(_) => Err(Error::ExpectedString),
            SpecValue::Bytes(b) => match utf8_decode(b) {
                None => Err(Error::InvalidString),
                Some(cs) => match spec_texts(items.drop_first()) {
                    Ok(rest) => Ok(seq![cs] + rest),
                    Err(e) => Err(e),
                },
            },
        }
    }
}

/// Reads a decoded list value as a vector of texts, each element a
/// string value holding valid UTF-8.
pub fn texts_of(v: &RlpValue) -> (r: Result<Vec<String>, Error>)
    ensures
        match *v {
            RlpValue::Bytes(_) => r == Err::<Vec<String>, Error>(Error::ExpectedList),
            RlpValue::List(items) => match spec_texts(deep_seq(items@)) {
                Err(e) => (r matches Err(a) && a == e),
                Ok(texts) => (r matches Ok(out) && out.deep_view() == texts),
            },
        },
{
    let list = match v {
        RlpValue::Bytes(_) => {
            return Err(Error::ExpectedList);
        },
        RlpValue::List(items) => items,
    };
    let ghost ds = deep_seq(list@);
    proof {
        lemma_deep_seq_props(list@);
        assert(ds.subrange(0, ds.len() as int) =~= ds);
    }
    let mut out: Vec<String> = Vec::new();
    let mut i: usize = 0;
    proof {
        assert(out.deep_view() =~~= Seq::<Seq<char>>::empty());
        if spec_texts(ds) is Ok {
            assert(out.deep_view() + spec_texts(ds)->Ok_0 =~~= spec_texts(ds)->Ok_0);
        }
    }
    while i < list.len()
        invariant
            *v == RlpValue::List(*list),
            i <= list@.len(),
            ds == deep_seq(list@),
            ds.len() == list@.len(),
            forall|j: int| 0 <= j < list@.len() ==> ds[j] == (#[trigger] list@[j]).deep(),
            spec_texts(ds) == (match spec_texts(ds.subrange(i as int, ds.len() as int)) {
                Ok(rest) => Ok::<Seq<Seq<char>>, Error>(out.deep_view() + rest),
                Err(e) => Err::<Seq<Seq<char>>, Error>(e),
            }),
        decreases list@.len() - i,
    {
        let elem = &list[i];
        let ghost remt = ds.subrange(i as int, ds.len() as int);
        proof {
            assert(remt[0] == ds[i as int]);
        }
        let s = match text_of(elem) {
            Ok(s) => s,
            Err(e) => {
                return Err(e);
            },
        };
        let ghost old_out = out.deep_view();
        let ghost cs = s@;
        out.push(s);
        i = i + 1;
        proof {
            assert(out.deep_view() =~~= old_out.push(cs));
            assert(remt.drop_first() =~= ds.subrange(i as int, ds.len() as int));
            if spec_texts(ds.subrange(i as int, ds.len() as int)) is Ok {
                let rest2 = spec_texts(ds.subrange(i as int, ds.len() as int))->Ok_0;
                assert(old_out + (seq![cs] + rest2) =~~= out.deep_view() + rest2);
            }
        }
    }
    proof {
        assert(ds.subrange(list@.len() as int, ds.len() as int).len() == 0);
        assert(out.deep_view() + Seq::<Seq<char>>::empty() =~~= out.deep_view());
    }
    Ok(out)
}


} // verus!
