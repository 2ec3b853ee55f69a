use vstd::prelude::*;
use vstd::utf8::{decode_utf8, encode_utf8, valid_utf8};
use crate::date_time::{
    compact_of, compact_parse, deserialize_date, iso_of, iso_parse, lemma_compact_round_trip,
    lemma_iso_round_trip, serialize_date, BidAskTcpDateTime, UtcDateTime,
};
use crate::digits::{fixed_digits, is_digit, lemma_fixed_digits};
use crate::text::string_from_utf8;
use crate::{CodecError, LINE_SPLITTER};

verus! {

/// Splits `s` at every separator byte; `k` separators give `k + 1` fields.
pub open spec fn split_fields(s: Seq<u8>) -> Seq<Seq<u8>>
    decreases s.len(),
{
    if s.len() == 0 {
        seq![Seq::<u8>::empty()]
    } else {
        let prev = split_fields(s.drop_last());
        if s.last() == LINE_SPLITTER {
            prev.push(Seq::<u8>::empty())
        } else {
            prev.update(prev.len() - 1, prev.last().push(s.last()))
        }
    }
}

/// The fields joined by single separator bytes.
pub open spec fn join_fields(ts: Seq<Seq<u8>>) -> Seq<u8>
    decreases ts.len(),
{
    if ts.len() == 0 {
        Seq::<u8>::empty()
    } else if ts.len() == 1 {
        ts[0]
    } else {
        join_fields(ts.drop_last()) + seq![LINE_SPLITTER] + ts.last()
    }
}

/// Holds no separator byte.
pub open spec fn no_splitter(s: Seq<u8>) -> bool {
    forall|i: int| 0 <= i < s.len() ==> #[trigger] s[i] != LINE_SPLITTER
}

/// Holds no CR or LF byte, either of which would end a message on the stream.
pub open spec fn no_line_break(s: Seq<u8>) -> bool {
    forall|i: int| 0 <= i < s.len() ==> #[trigger] s[i] != 13 && s[i] != 10
}

/// Layout of a record on the wire.
#[derive(Clone, Copy, Debug, PartialEq, Eq, Structural)]
pub enum Generation {
    /// Six fields: id, extended calendar timestamp, bid, bid size, ask, ask size.
    Extended,
    /// Four fields: id, compact timestamp, bid, ask.
    Compact,
}

/// One bid/ask snapshot. Prices and sizes are kept as the text they came in.
#[derive(Clone, Debug)]
pub struct BidAskTcpModel {
    pub date: UtcDateTime,
    pub id: String,
    pub bid_price: String,
    pub ask_price: String,
    pub bid_volume: String,
    pub ask_volume: String,
}

pub struct BidAskTcpModelView {
    pub date: UtcDateTime,
    pub id: Seq<char>,
    pub bid_price: Seq<char>,
    pub ask_price: Seq<char>,
    pub bid_volume: Seq<char>,
    pub ask_volume: Seq<char>,
}

impl View for BidAskTcpModel {
    type V = BidAskTcpModelView;

    open spec fn view(&self) -> BidAskTcpModelView {
        BidAskTcpModelView {
            date: self.date,
            id: self.id@,
            bid_price: self.bid_price@,
            ask_price: self.ask_price@,
            bid_volume: self.bid_volume@,
            ask_volume: self.ask_volume@,
        }
    }
}

impl BidAskTcpModelView {
    /// A record that the wire can carry: a valid instant, a non-empty id, and
    /// no separator, CR or LF byte inside any text field.
    pub open spec fn wf(self) -> bool {
        &&& self.date.wf()
        &&& self.id.len() > 0
        &&& no_splitter(encode_utf8(self.id))
        &&& no_splitter(encode_utf8(self.bid_price))
        &&& no_splitter(encode_utf8(self.ask_price))
        &&& no_splitter(encode_utf8(self.bid_volume))
        &&& no_splitter(encode_utf8(self.ask_volume))
        &&& no_line_break(encode_utf8(self.id))
        &&& no_line_break(encode_utf8(self.bid_price))
        &&& no_line_break(encode_utf8(self.ask_price))
        &&& no_line_break(encode_utf8(self.bid_volume))
        &&& no_line_break(encode_utf8(self.ask_volume))
    }

    /// The fields of the record in the given layout.
    pub open spec fn fields(self, g: Generation) -> Seq<Seq<u8>> {
        match g {
            Generation::Extended => seq![
                encode_utf8(self.id),
                iso_of(self.date),
                encode_utf8(self.bid_price),
                encode_utf8(self.bid_volume),
                encode_utf8(self.ask_price),
                encode_utf8(self.ask_volume),
            ],
            Generation::Compact => seq![
                encode_utf8(self.id),
                compact_of(self.date),
                encode_utf8(self.bid_price),
                encode_utf8(self.ask_price),
            ],
        }
    }

    pub open spec fn encoded(self, g: Generation) -> Seq<u8> {
        join_fields(self.fields(g))
    }

    /// What the given layout keeps of the record: the compact one drops the sizes.
    pub open spec fn kept(self, g: Generation) -> BidAskTcpModelView {
        match g {
            Generation::Extended => self,
            Generation::Compact => BidAskTcpModelView {
                bid_volume: Seq::<char>::empty(),
                ask_volume: Seq::<char>::empty(),
                ..self
            },
        }
    }
}

/// Decodes a record: six fields with an extended calendar timestamp, or four
/// with a compact one; any other field count, a timestamp out of its grammar or
/// a text field that is not UTF-8 gives `None`.
pub open spec fn decode_record(s: Seq<u8>) -> Option<BidAskTcpModelView> {
    let ts = split_fields(s);
    if ts.len() == 6 {
        if valid_utf8(ts[0]) && valid_utf8(ts[2]) && valid_utf8(ts[3]) && valid_utf8(ts[4])
            && valid_utf8(ts[5]) && iso_parse(ts[1]) is Some {
            Some(
                BidAskTcpModelView {
                    date: iso_parse(ts[1])->Some_0,
                    id: decode_utf8(ts[0]),
                    bid_price: decode_utf8(ts[2]),
                    bid_volume: decode_utf8(ts[3]),
                    ask_price: decode_utf8(ts[4]),
                    ask_volume: decode_utf8(ts[5]),
                },
            )
        } else {
            None
        }
    } else if ts.len() == 4 {
        if valid_utf8(ts[0]) && valid_utf8(ts[2]) && valid_utf8(ts[3]) && compact_parse(
            ts[1],
        ) is Some {
            Some(
                BidAskTcpModelView {
                    date: compact_parse(ts[1])->Some_0,
                    id: decode_utf8(ts[0]),
                    bid_price: decode_utf8(ts[2]),
                    bid_volume: Seq::<char>::empty(),
                    ask_price: decode_utf8(ts[3]),
                    ask_volume: Seq::<char>::empty(),
                },
            )
        } else {
            None
        }
    } else {
        None
    }
}

pub proof fn lemma_split_nonempty(s: Seq<u8>)
    ensures
        split_fields(s).len() >= 1,
    decreases s.len(),
{
    if s.len() > 0 {
        lemma_split_nonempty(s.drop_last());
    }
}

/// Appending bytes without a separator extends the last field.
pub proof fn lemma_split_append(x: Seq<u8>, b: Seq<u8>)
    requires
        no_splitter(b),
    ensures
        split_fields(x + b) == split_fields(x).update(
            split_fields(x).len() - 1,
            split_fields(x).last() + b,
        ),
    decreases b.len(),
{
    lemma_split_nonempty(x);
    let sx = split_fields(x);
    if b.len() == 0 {
        assert(x + b =~= x);
        assert(sx.last() + b =~= sx.last());
        assert(sx.update(sx.len() - 1, sx.last() + b) =~= sx);
    } else {
        let b1 = b.drop_last();
        assert(no_splitter(b1)) by {
            assert forall|i: int| 0 <= i < b1.len() implies #[trigger] b1[i] != LINE_SPLITTER by {
                assert(b1[i] == b[i]);
            }
        }
        lemma_split_append(x, b1);
        assert((x + b).drop_last() =~= x + b1);
        assert((x + b).last() == b.last());
        assert(b[b.len() - 1] != LINE_SPLITTER);
        let p = split_fields(x + b1);
        assert(p.len() == sx.len());
        assert(p.last() == sx.last() + b1);
        assert((sx.last() + b1).push(b.last()) =~= sx.last() + b);
        assert(p.update(p.len() - 1, p.last().push(b.last())) =~= sx.update(
            sx.len() - 1,
            sx.last() + b,
        ));
    }
}

/// Splitting joined fields that hold no separator gives the fields back.
pub proof fn lemma_split_join(ts: Seq<Seq<u8>>)
    requires
        ts.len() >= 1,
        forall|i: int| 0 <= i < ts.len() ==> no_splitter(#[trigger] ts[i]),
    ensures
        split_fields(join_fields(ts)) == ts,
    decreases ts.len(),
{
    if ts.len() == 1 {
        let e = Seq::<u8>::empty();
        assert(no_splitter(ts[0]));
        lemma_split_append(e, ts[0]);
        assert(e + ts[0] =~= ts[0]);
        assert(split_fields(e) == seq![e]);
        assert(seq![e].update(0, e + ts[0]) =~= ts);
    } else {
        let init = ts.drop_last();
        assert forall|i: int| 0 <= i < init.len() implies no_splitter(#[trigger] init[i]) by {
            assert(init[i] == ts[i]);
        }
        lemma_split_join(init);
        let j = join_fields(init);
        let jp = j.push(LINE_SPLITTER);
        assert(jp.drop_last() =~= j);
        assert(split_fields(jp) == init.push(Seq::<u8>::empty()));
        assert(no_splitter(ts[ts.len() - 1]));
        lemma_split_append(jp, ts.last());
        assert(j + seq![LINE_SPLITTER] + ts.last() =~= jp + ts.last());
        assert(Seq::<u8>::empty() + ts.last() =~= ts.last());
        assert(init.push(Seq::<u8>::empty()).update(init.len() as int, Seq::<u8>::empty() + ts.last())
            =~= ts);
    }
}

/// The four joined fields, written out.
pub proof fn lemma_join4(a: Seq<u8>, b: Seq<u8>, c: Seq<u8>, d: Seq<u8>)
    ensures
        join_fields(seq![a, b, c, d]) == a + seq![LINE_SPLITTER] + b + seq![LINE_SPLITTER] + c
            + seq![LINE_SPLITTER] + d,
{
    assert(seq![a, b, c, d].drop_last() =~= seq![a, b, c]);
    assert(seq![a, b, c].drop_last() =~= seq![a, b]);
    assert(seq![a, b].drop_last() =~= seq![a]);
    assert(join_fields(seq![a]) == a);
    assert(join_fields(seq![a, b]) == a + seq![LINE_SPLITTER] + b);
    assert(join_fields(seq![a, b, c]) == a + seq![LINE_SPLITTER] + b + seq![LINE_SPLITTER] + c);
}

/// The six joined fields, written out.
pub proof fn lemma_join6(a: Seq<u8>, b: Seq<u8>, c: Seq<u8>, d: Seq<u8>, e: Seq<u8>, f: Seq<u8>)
    ensures
        join_fields(seq![a, b, c, d, e, f]) == a + seq![LINE_SPLITTER] + b + seq![LINE_SPLITTER]
            + c + seq![LINE_SPLITTER] + d + seq![LINE_SPLITTER] + e + seq![LINE_SPLITTER] + f,
{
    assert(seq![a, b, c, d, e, f].drop_last() =~= seq![a, b, c, d, e]);
    assert(seq![a, b, c, d, e].drop_last() =~= seq![a, b, c, d]);
    lemma_join4(a, b, c, d);
    assert(join_fields(seq![a, b, c, d, e]) == join_fields(seq![a, b, c, d]) + seq![LINE_SPLITTER]
        + e);
}

fn append_bytes(dest: &mut Vec<u8>, src: &[u8])
    ensures
        final(dest)@ == old(dest)@ + src@,
{
    let mut i: usize = 0;
    while i < src.len()
        invariant
            i <= src@.len(),
            dest@ == old(dest)@ + src@.subrange(0, i as int),
        decreases src@.len() - i,
    {
        dest.push(src[i]);
        i = i + 1;
        proof {
            assert(src@.subrange(0, i as int) =~= src@.subrange(0, i - 1).push(src@[i - 1]));
        }
    }
    proof {
        assert(src@.subrange(0, src@.len() as int) =~= src@);
    }
}

/// Splits `src` at every separator byte.
fn split_chunks(src: &[u8]) -> (r: Vec<Vec<u8>>)
    ensures
        r@.map_values(|v: Vec<u8>| v@) == split_fields(src@),
{
    let mut tokens: Vec<Vec<u8>> = Vec::new();
    let mut cur: Vec<u8> = Vec::new();
    let mut i: usize = 0;
    proof {
        assert(src@.subrange(0, 0) =~= Seq::<u8>::empty());
        assert(tokens@.map_values(|v: Vec<u8>| v@).push(cur@) =~= seq![Seq::<u8>::empty()]);
    }
    while i < src.len()
        invariant
            i <= src@.len(),
            tokens@.map_values(|v: Vec<u8>| v@).push(cur@) == split_fields(
                src@.subrange(0, i as int),
            ),
        decreases src@.len() - i,
    {
        let b = src[i];
        let ghost t0 = tokens@.map_values(|v: Vec<u8>| v@);
        let ghost c0 = cur@;
        proof {
            let sub = src@.subrange(0, i + 1);
            assert(sub.drop_last() =~= src@.subrange(0, i as int));
            assert(sub.last() == b);
        }
        if b == LINE_SPLITTER {
            tokens.push(cur);
            cur = Vec::new();
            proof {
                assert(tokens@.map_values(|v: Vec<u8>| v@) =~= t0.push(c0));
                assert(tokens@.map_values(|v: Vec<u8>| v@).push(cur@) =~= t0.push(c0).push(
                    Seq::<u8>::empty(),
                ));
            }
        } else {
            cur.push(b);
            proof {
                assert(tokens@.map_values(|v: Vec<u8>| v@).push(cur@) =~= t0.push(c0).update(
                    t0.len() as int,
                    c0.push(b),
                ));
            }
        }
        i = i + 1;
    }
    let ghost t1 = tokens@.map_values(|v: Vec<u8>| v@);
    let ghost c1 = cur@;
    tokens.push(cur);
    proof {
        assert(src@.subrange(0, src@.len() as int) =~= src@);
        assert(tokens@.map_values(|v: Vec<u8>| v@) =~= t1.push(c1));
    }
    tokens
}

/// Removes the last chunk.
fn take_last(chunks: &mut Vec<Vec<u8>>) -> (r: Vec<u8>)
    requires
        old(chunks)@.len() > 0,
    ensures
        r@ == old(chunks)@.last()@,
        final(chunks)@ == old(chunks)@.drop_last(),
{
    match chunks.pop() {
        Some(v) => v,
        None => Vec::new(),
    }
}

fn text_field(bytes: Vec<u8>) -> (r: Result<String, CodecError>)
    ensures
        r matches Ok(s) ==> valid_utf8(bytes@) && s@ == decode_utf8(bytes@),
        r matches Err(e) ==> !valid_utf8(bytes@) && e == CodecError::MalformedRecord,
{
    match string_from_utf8(bytes) {
        Some(s) => Ok(s),
        None => Err(CodecError::MalformedRecord),
    }
}

impl BidAskTcpModel {
    /// Encodes the record in the given layout, fields joined by single separators.
    pub fn serialize(&self, generation: Generation) -> (r: Vec<u8>)
        requires
            self.date.wf(),
        ensures
            r@ == self@.encoded(generation),
    {
        let mut result: Vec<u8> = Vec::new();
        append_bytes(&mut result, self.id.as_str().as_bytes());
        result.push(LINE_SPLITTER);
        match generation {
            Generation::Extended => {
                let date = serialize_date(&self.date);
                append_bytes(&mut result, date.as_slice());
                result.push(LINE_SPLITTER);
                append_bytes(&mut result, self.bid_price.as_str().as_bytes());
                result.push(LINE_SPLITTER);
                append_bytes(&mut result, self.bid_volume.as_str().as_bytes());
                result.push(LINE_SPLITTER);
                append_bytes(&mut result, self.ask_price.as_str().as_bytes());
                result.push(LINE_SPLITTER);
                append_bytes(&mut result, self.ask_volume.as_str().as_bytes());
                proof {
                    let v = self@;
                    lemma_join6(
                        encode_utf8(v.id),
                        iso_of(v.date),
                        encode_utf8(v.bid_price),
                        encode_utf8(v.bid_volume),
                        encode_utf8(v.ask_price),
                        encode_utf8(v.ask_volume),
                    );
                    assert(result@ =~= v.encoded(generation));
                }
            },
            Generation::Compact => {
                let date = BidAskTcpDateTime::Our(self.date);
                date.serialize(&mut result);
                result.push(LINE_SPLITTER);
                append_bytes(&mut result, self.bid_price.as_str().as_bytes());
                result.push(LINE_SPLITTER);
                append_bytes(&mut result, self.ask_price.as_str().as_bytes());
                proof {
                    let v = self@;
                    lemma_join4(
                        encode_utf8(v.id),
                        compact_of(v.date),
                        encode_utf8(v.bid_price),
                        encode_utf8(v.ask_price),
                    );
                    assert(result@ =~= v.encoded(generation));
                }
            },
        }
        result
    }

    /// Decodes a record in either layout (see `decode_record`).
    pub fn deserialize(src: &[u8]) -> (r: Result<BidAskTcpModel, CodecError>)
        ensures
            r matches Ok(m) ==> decode_record(src@) == Some(m@),
            r matches Err(e) ==> decode_record(src@) is None && e == CodecError::MalformedRecord,
    {
        let mut chunks = split_chunks(src);
        let ghost ts = split_fields(src@);
        proof {
            assert(chunks@.len() == ts.len());
            assert forall|k: int| 0 <= k < ts.len() implies #[trigger] ts[k] == chunks@[k]@ by {}
        }
        let n = chunks.len();
        if n == 6 {
            let ask_volume = take_last(&mut chunks);
            let ask_price = take_last(&mut chunks);
            let bid_volume = take_last(&mut chunks);
            let bid_price = take_last(&mut chunks);
            let date = take_last(&mut chunks);
            let id = take_last(&mut chunks);
            assert(id@ == ts[0] && date@ == ts[1] && bid_price@ == ts[2]);
            assert(bid_volume@ == ts[3] && ask_price@ == ts[4] && ask_volume@ == ts[5]);
            let date = deserialize_date(date.as_slice())?;
            let id = text_field(id)?;
            let bid_price = text_field(bid_price)?;
            let bid_volume = text_field(bid_volume)?;
            let ask_price = text_field(ask_price)?;
            let ask_volume = text_field(ask_volume)?;
            Ok(BidAskTcpModel { date, id, bid_price, ask_price, bid_volume, ask_volume })
        } else if n == 4 {
            let ask_price = take_last(&mut chunks);
            let bid_price = take_last(&mut chunks);
            let date = take_last(&mut chunks);
            let id = take_last(&mut chunks);
            assert(id@ == ts[0] && date@ == ts[1] && bid_price@ == ts[2] && ask_price@ == ts[3]);
            let date = match BidAskTcpDateTime::parse(date.as_slice()) {
                Some(d) => *d.unwrap_as_our_date(),
                None => return Err(CodecError::MalformedRecord),
            };
            let id = text_field(id)?;
            let bid_price = text_field(bid_price)?;
            let ask_price = text_field(ask_price)?;
            proof {
                reveal_strlit("");
            }
            Ok(
                BidAskTcpModel {
                    date,
                    id,
                    bid_price,
                    ask_price,
                    bid_volume: String::new(),
                    ask_volume: String::new(),
                },
            )
        } else {
            Err(CodecError::MalformedRecord)
        }
    }
}

proof fn lemma_digits_no_splitter(v: nat, w: nat)
    ensures
        no_splitter(fixed_digits(v, w)),
{
    lemma_fixed_digits(v, w);
    assert forall|i: int| 0 <= i < fixed_digits(v, w).len() implies #[trigger] fixed_digits(
        v,
        w,
    )[i] != LINE_SPLITTER by {
        assert(is_digit(fixed_digits(v, w)[i]));
    }
}

proof fn lemma_timestamps_no_splitter(t: UtcDateTime)
    ensures
        no_splitter(iso_of(t)),
        no_splitter(compact_of(t)),
{
    lemma_digits_no_splitter(t.year as nat, 4);
    lemma_digits_no_splitter(t.month as nat, 2);
    lemma_digits_no_splitter(t.day as nat, 2);
    lemma_digits_no_splitter(t.hour as nat, 2);
    lemma_digits_no_splitter(t.minute as nat, 2);
    lemma_digits_no_splitter(t.second as nat, 2);
    lemma_digits_no_splitter(t.microsecond as nat, 6);
    lemma_digits_no_splitter((t.microsecond / 1000) as nat, 3);
    let a = iso_of(t);
    assert forall|i: int| 0 <= i < a.len() implies #[trigger] a[i] != LINE_SPLITTER by {}
    let b = compact_of(t);
    assert forall|i: int| 0 <= i < b.len() implies #[trigger] b[i] != LINE_SPLITTER by {}
}

/// Decoding the encoding of a well-formed record gives back what its layout
/// keeps: every field in the extended layout, all but the sizes in the compact one.
pub proof fn lemma_record_round_trip(r: BidAskTcpModelView, g: Generation)
    requires
        r.wf(),
    ensures
        decode_record(r.encoded(g)) == Some(r.kept(g)),
{
    broadcast use vstd::utf8::encode_utf8_valid_utf8, vstd::utf8::encode_utf8_decode_utf8;

    lemma_timestamps_no_splitter(r.date);
    let fs = r.fields(g);
    assert forall|i: int| 0 <= i < fs.len() implies no_splitter(#[trigger] fs[i]) by {}
    lemma_split_join(fs);
    match g {
        Generation::Extended => {
            lemma_iso_round_trip(r.date);
        },
        Generation::Compact => {
            lemma_compact_round_trip(r.date);
        },
    }
}

/// A message of the feed.
#[derive(Clone, Debug)]
pub enum BidAskTcpContract {
    Ping,
    Pong,
    BidAsk(BidAskTcpModel),
}

pub enum BidAskTcpContractView {
    Ping,
    Pong,
    BidAsk(BidAskTcpModelView),
}

impl View for BidAskTcpContract {
    type V = BidAskTcpContractView;

    open spec fn view(&self) -> BidAskTcpContractView {
        match self {
            BidAskTcpContract::Ping => BidAskTcpContractView::Ping,
            BidAskTcpContract::Pong => BidAskTcpContractView::Pong,
            BidAskTcpContract::BidAsk(m) => BidAskTcpContractView::BidAsk(m@),
        }
    }
}

/// `PING`
pub open spec fn ping_bytes() -> Seq<u8> {
    seq![80u8, 73, 78, 71]
}

/// `PONG`
pub open spec fn pong_bytes() -> Seq<u8> {
    seq![80u8, 79, 78, 71]
}

/// A heartbeat token, matched exactly, or else a record.
pub open spec fn parse_message(s: Seq<u8>) -> Option<BidAskTcpContractView> {
    if s == ping_bytes() {
        Some(BidAskTcpContractView::Ping)
    } else if s == pong_bytes() {
        Some(BidAskTcpContractView::Pong)
    } else {
        match decode_record(s) {
            Some(r) => Some(BidAskTcpContractView::BidAsk(r)),
            None => None,
        }
    }
}

impl BidAskTcpContractView {
    /// A message whose record, if any, has a valid instant, so that it can be encoded.
    pub open spec fn encodable(self) -> bool {
        self matches BidAskTcpContractView::BidAsk(r) ==> r.date.wf()
    }

    pub open spec fn wf(self) -> bool {
        self matches BidAskTcpContractView::BidAsk(r) ==> r.wf()
    }

    pub open spec fn encoded(self, g: Generation) -> Seq<u8> {
        match self {
            BidAskTcpContractView::Ping => ping_bytes(),
            BidAskTcpContractView::Pong => pong_bytes(),
            BidAskTcpContractView::BidAsk(r) => r.encoded(g),
        }
    }

    pub open spec fn kept(self, g: Generation) -> BidAskTcpContractView {
        match self {
            BidAskTcpContractView::BidAsk(r) => BidAskTcpContractView::BidAsk(r.kept(g)),
            _ => self,
        }
    }
}

/// Parsing the encoding of a well-formed message gives back what its layout keeps.
pub proof fn lemma_message_round_trip(m: BidAskTcpContractView, g: Generation)
    requires
        m.wf(),
    ensures
        parse_message(m.encoded(g)) == Some(m.kept(g)),
{
    if let BidAskTcpContractView::BidAsk(r) = m {
        lemma_record_round_trip(r, g);
        let fs = r.fields(g);
        let e = r.encoded(g);
        let k = join_fields(fs.drop_last()).len() as int;
        assert(e == join_fields(fs.drop_last()) + seq![LINE_SPLITTER] + fs.last());
        assert(e[k] == LINE_SPLITTER);
        if e == ping_bytes() || e == pong_bytes() {
            assert(e.len() == 4);
            assert(ping_bytes()[k] != LINE_SPLITTER);
            assert(pong_bytes()[k] != LINE_SPLITTER);
        }
    }
}

impl BidAskTcpContract {
    pub fn is_ping(&self) -> (r: bool)
        ensures
            r == (self@ is Ping),
    {
        match self {
            BidAskTcpContract::Ping => true,
            _ => false,
        }
    }

    /// True for `Pong` alone: the acknowledgement of a heartbeat.
    pub fn is_pong(&self) -> (r: bool)
        ensures
            r == (self@ is Pong),
    {
        match self {
            BidAskTcpContract::Pong => true,
            _ => false,
        }
    }

    pub fn is_bid_ask(&self) -> (r: bool)
        ensures
            r == (self@ is BidAsk),
    {
        match self {
            BidAskTcpContract::Ping => false,
            BidAskTcpContract::Pong => false,
            BidAskTcpContract::BidAsk(_) => true,
        }
    }

    /// Reads one message: `PING`, `PONG`, or a record.
    pub fn parse(src: &[u8]) -> (r: Result<BidAskTcpContract, CodecError>)
        ensures
            r matches Ok(m) ==> parse_message(src@) == Some(m@),
            r matches Err(e) ==> parse_message(src@) is None && e == CodecError::MalformedRecord,
    {
        let ghost s = src@;
        if src.len() == 4 && src[0] == 80 && src[2] == 78 && src[3] == 71 {
            if src[1] == 73 {
                proof {
                    assert(s =~= ping_bytes());
                }
                return Ok(BidAskTcpContract::Ping);
            }
            if src[1] == 79 {
                proof {
                    assert(s =~= pong_bytes());
                }
                return Ok(BidAskTcpContract::Pong);
            }
        }
        proof {
            if s == ping_bytes() || s == pong_bytes() {
                assert(s[0] == 80 && s[2] == 78 && s[3] == 71);
                assert(s[1] == 73 || s[1] == 79);
            }
        }
        let record = BidAskTcpModel::deserialize(src)?;
        Ok(BidAskTcpContract::BidAsk(record))
    }

    /// Appends the encoding of the message in the given layout, with no terminator.
    pub fn serialize(&self, dest: &mut Vec<u8>, generation: Generation)
        requires
            self@.encodable(),
        ensures
            final(dest)@ == old(dest)@ + self@.encoded(generation),
    {
        match self {
            BidAskTcpContract::Ping => {
                dest.push(80);
                dest.push(73);
                dest.push(78);
                dest.push(71);
                proof {
                    assert(final(dest)@ =~= old(dest)@ + ping_bytes());
                }
            },
            BidAskTcpContract::Pong => {
                dest.push(80);
                dest.push(79);
                dest.push(78);
                dest.push(71);
                proof {
                    assert(final(dest)@ =~= old(dest)@ + pong_bytes());
                }
            },
            BidAskTcpContract::BidAsk(bid_ask) => {
                let bytes = bid_ask.serialize(generation);
                append_bytes(dest, bytes.as_slice());
            },
        }
    }
}

/// The field count picks the layout: six fields decode only with an extended
/// calendar timestamp, four only with a compact one, and any other count fails.
pub proof fn lemma_generation_dispatch(s: Seq<u8>)
    ensures
        split_fields(s).len() != 4 && split_fields(s).len() != 6 ==> decode_record(s) is None,
        split_fields(s).len() == 6 ==> (decode_record(s) matches Some(r) ==> iso_parse(
            split_fields(s)[1],
        ) == Some(r.date)),
        split_fields(s).len() == 4 ==> (decode_record(s) matches Some(r) ==> compact_parse(
            split_fields(s)[1],
        ) == Some(r.date)),
{
}

} // verus!
