//! Incremental UTF-8 decoding of terminal output: a character whose bytes
//! arrive in two reads is decoded whole.
use vstd::prelude::*;
use vstd::utf8::*;

verus! {

/// What `String::from_utf8_lossy` makes of bytes that are not valid UTF-8.
pub uninterp spec fn lossy_text(b: Seq<u8>) -> Seq<char>;

/// The text shown for `b`: its characters where `b` is valid UTF-8, the
/// lossy conversion otherwise.
pub open spec fn shown_text(b: Seq<u8>) -> Seq<char> {
    if valid_utf8(b) {
        decode_utf8(b)
    } else {
        lossy_text(b)
    }
}

/// Relies on `String::from_utf8_lossy`, which returns the decoded text where
/// the bytes are valid UTF-8.
#[verifier::external_body]
fn text_of(b: &[u8]) -> (r: String)
    ensures
        valid_utf8(b@) ==> r@ == decode_utf8(b@),
        !valid_utf8(b@) ==> r@ == lossy_text(b@),
{
    String::from_utf8_lossy(b).into_owned()
}

/// The number of bytes that the leading byte `b` announces.
pub open spec fn lead_width(b: u8) -> int {
    if is_leading_byte_width_2(b) {
        2
    } else if is_leading_byte_width_3(b) {
        3
    } else if is_leading_byte_width_4(b) {
        4
    } else {
        1
    }
}

/// The length of the incomplete character at the end of `b`: the bytes from
/// its last leading byte on, where that byte announces more bytes than follow
/// it; zero where `b` ends with no such sequence.
pub open spec fn held_len(b: Seq<u8>) -> int {
    let n = b.len() as int;
    if n >= 1 && !is_continuation_byte(b[n - 1]) {
        if lead_width(b[n - 1]) > 1 {
            1
        } else {
            0
        }
    } else if n >= 2 && !is_continuation_byte(b[n - 2]) {
        if lead_width(b[n - 2]) > 2 {
            2
        } else {
            0
        }
    } else if n >= 3 && !is_continuation_byte(b[n - 3]) {
        if lead_width(b[n - 3]) > 3 {
            3
        } else {
            0
        }
    } else {
        0
    }
}

/// The bytes of `b` that can be shown now.
pub open spec fn ready_part(b: Seq<u8>) -> Seq<u8> {
    b.subrange(0, b.len() - held_len(b))
}

/// The bytes of `b` kept back until the rest of their character arrives.
pub open spec fn held_part(b: Seq<u8>) -> Seq<u8> {
    b.subrange(b.len() - held_len(b), b.len() as int)
}

fn is_continuation(b: u8) -> (r: bool)
    ensures
        r == is_continuation_byte(b),
{
    0x80 <= b && b <= 0xbf
}

fn width_of(b: u8) -> (r: usize)
    ensures
        r == lead_width(b),
{
    if 0xc0 <= b && b <= 0xdf {
        2
    } else if 0xe0 <= b && b <= 0xef {
        3
    } else if 0xf0 <= b && b <= 0xf7 {
        4
    } else {
        1
    }
}

/// The length of the incomplete character at the end of `b`.
pub fn incomplete_tail_len(b: &[u8]) -> (r: usize)
    ensures
        r == held_len(b@),
{
    let n = b.len();
    if n >= 1 && !is_continuation(b[n - 1]) {
        if width_of(b[n - 1]) > 1 {
            1
        } else {
            0
        }
    } else if n >= 2 && !is_continuation(b[n - 2]) {
        if width_of(b[n - 2]) > 2 {
            2
        } else {
            0
        }
    } else if n >= 3 && !is_continuation(b[n - 3]) {
        if width_of(b[n - 3]) > 3 {
            3
        } else {
            0
        }
    } else {
        0
    }
}

/// In valid UTF-8, a continuation byte at `i` belongs to a character whose
/// leading byte stands `k` bytes before it, with `k` below that width.
proof fn lemma_lead_before(x: Seq<u8>, i: int) -> (k: int)
    requires
        valid_utf8(x),
        0 <= i < x.len(),
        is_continuation_byte(x[i]),
    ensures
        1 <= k <= 3,
        i - k >= 0,
        !is_continuation_byte(x[i - k]),
        lead_width(x[i - k]) > k,
        forall|m: int| i - k < m <= i ==> is_continuation_byte(#[trigger] x[m]),
    decreases x.len(),
{
    let len = length_of_first_scalar(x);
    if i < len {
        i
    } else {
        let rest = pop_first_scalar(x);
        assert(rest.len() < x.len());
        assert(rest[i - len] == x[i]);
        let k = lemma_lead_before(rest, i - len);
        assert(rest[i - len - k] == x[i - k]);
        assert forall|m: int| i - k < m <= i implies is_continuation_byte(#[trigger] x[m]) by {
            assert(rest[m - len] == x[m]);
        }
        k
    }
}

/// A valid UTF-8 sequence ends with no incomplete character.
proof fn lemma_valid_holds_nothing(y: Seq<u8>)
    requires
        valid_utf8(y),
    ensures
        held_len(y) == 0,
{
    let h = held_len(y);
    if h > 0 {
        let p = y.len() - h;
        is_char_boundary_iff_not_is_continuation_byte(y, p);
        valid_utf8_split(y, p);
        let t = y.subrange(p, y.len() as int);
        assert(t[0] == y[p]);
        assert(valid_first_scalar(t));
    }
}

/// Where `c1 + c2` is valid UTF-8, the bytes that a decoder shows after
/// reading `c1` end on a character boundary of `c1 + c2`.
proof fn lemma_ready_on_boundary(c1: Seq<u8>, c2: Seq<u8>)
    requires
        valid_utf8(c1 + c2),
    ensures
        is_char_boundary(c1 + c2, c1.len() - held_len(c1)),
{
    let x = c1 + c2;
    let j = c1.len() - held_len(c1);
    is_char_boundary_start_end_of_seq(x);
    if j < x.len() {
        assert(x[j] == if j < c1.len() { c1[j] } else { c2[0] });
        is_char_boundary_iff_not_is_continuation_byte(x, j);
        if held_len(c1) == 0 && is_continuation_byte(x[j]) {
            let k = lemma_lead_before(x, j);
            let n = c1.len() as int;
            assert(x[j - k] == c1[n - k]);
            assert(x[n - 1] == c1[n - 1]);
            if k >= 2 {
                assert(x[n - 2] == c1[n - 2]);
            }
            if k >= 3 {
                assert(x[n - 3] == c1[n - 3]);
            }
        }
    }
}

/// Two reads into a fresh decoder whose bytes together are valid UTF-8 show
/// exactly the decoded text, even where a character is split between the
/// reads, and leave nothing held back.
pub proof fn lemma_two_reads_reassemble(c1: Seq<u8>, c2: Seq<u8>)
    requires
        valid_utf8(c1 + c2),
    ensures
        shown_text(ready_part(Seq::<u8>::empty() + c1)) + shown_text(
            ready_part(held_part(Seq::<u8>::empty() + c1) + c2),
        ) == decode_utf8(c1 + c2),
        held_part(held_part(Seq::<u8>::empty() + c1) + c2) == Seq::<u8>::empty(),
{
    let x = c1 + c2;
    assert(Seq::<u8>::empty() + c1 =~= c1);
    let j = c1.len() - held_len(c1);
    lemma_ready_on_boundary(c1, c2);
    valid_utf8_split(x, j);
    decode_utf8_split(x, j);
    assert(x.subrange(0, j) =~= ready_part(c1));
    let y = held_part(c1) + c2;
    assert(x.subrange(j, x.len() as int) =~= y);
    lemma_valid_holds_nothing(y);
    assert(ready_part(y) =~= y);
    assert(held_part(y) =~= Seq::<u8>::empty());
}

/// The chunks of `cs` one after another.
pub open spec fn joined(cs: Seq<Seq<u8>>) -> Seq<u8>
    decreases cs.len(),
{
    if cs.len() == 0 {
        Seq::empty()
    } else {
        cs[0] + joined(cs.drop_first())
    }
}

/// The text a decoder holding `held` shows while it is fed the chunks `cs`.
pub open spec fn shown_over(held: Seq<u8>, cs: Seq<Seq<u8>>) -> Seq<char>
    decreases cs.len(),
{
    if cs.len() == 0 {
        Seq::empty()
    } else {
        shown_text(ready_part(held + cs[0])) + shown_over(held_part(held + cs[0]), cs.drop_first())
    }
}

/// The bytes a decoder holding `held` holds back after being fed `cs`.
pub open spec fn held_over(held: Seq<u8>, cs: Seq<Seq<u8>>) -> Seq<u8>
    decreases cs.len(),
{
    if cs.len() == 0 {
        held
    } else {
        held_over(held_part(held + cs[0]), cs.drop_first())
    }
}

/// What a decoder holds back is an incomplete character in its own right.
proof fn lemma_held_part_is_held(b: Seq<u8>)
    ensures
        held_len(held_part(b)) == held_part(b).len(),
{
    let t = held_part(b);
    let n = b.len() as int;
    let k = held_len(b);
    if k >= 1 {
        assert(t[k - 1] == b[n - 1]);
        assert(t[0] == b[n - k]);
    }
    if k >= 2 {
        assert(t[k - 2] == b[n - 2]);
    }
}

/// However valid UTF-8 is cut into reads, a decoder shows exactly its text:
/// what it shows while fed the reads, then what it shows at the end of the
/// stream, is the decoded whole, and it ends holding nothing back. `held` is
/// what the decoder holds at the start: nothing, for a new one.
pub proof fn lemma_reads_reassemble(held: Seq<u8>, cs: Seq<Seq<u8>>)
    requires
        held_len(held) == held.len(),
        valid_utf8(held + joined(cs)),
    ensures
        shown_over(held, cs) + shown_text(held_over(held, cs)) == decode_utf8(held + joined(cs)),
        held_over(held, cs) == Seq::<u8>::empty(),
    decreases cs.len(),
{
    if cs.len() == 0 {
        assert(held + joined(cs) =~= held);
        lemma_valid_holds_nothing(held);
        assert(held =~= Seq::<u8>::empty());
        assert(shown_over(held, cs) + shown_text(held) =~= decode_utf8(held));
    } else {
        let c1 = held + cs[0];
        let rest = joined(cs.drop_first());
        let x = held + joined(cs);
        assert(x =~= c1 + rest);
        let j = c1.len() - held_len(c1);
        lemma_ready_on_boundary(c1, rest);
        valid_utf8_split(x, j);
        decode_utf8_split(x, j);
        assert(x.subrange(0, j) =~= ready_part(c1));
        let y = held_part(c1) + rest;
        assert(x.subrange(j, x.len() as int) =~= y);
        lemma_held_part_is_held(c1);
        lemma_reads_reassemble(held_part(c1), cs.drop_first());
        assert(shown_over(held, cs) + shown_text(held_over(held, cs)) =~= shown_text(ready_part(c1))
            + (shown_over(held_part(c1), cs.drop_first()) + shown_text(
            held_over(held_part(c1), cs.drop_first()),
        )));
    }
}

/// Feeding bytes loses none of them: what is shown and what is held back
/// make up the input, in order.
pub proof fn lemma_feed_keeps_bytes(held: Seq<u8>, chunk: Seq<u8>)
    ensures
        ready_part(held + chunk) + held_part(held + chunk) == held + chunk,
        held_part(held + chunk).len() <= 3,
{
    assert(ready_part(held + chunk) + held_part(held + chunk) =~= held + chunk);
}

/// Turns a stream of byte chunks into text, carrying an incomplete trailing
/// character from one chunk to the next.
pub struct Utf8Decoder {
    pending: Vec<u8>,
}

impl View for Utf8Decoder {
    type V = Seq<u8>;

    /// The bytes held back from earlier chunks.
    closed spec fn view(&self) -> Seq<u8> {
        self.pending@
    }
}

impl Utf8Decoder {
    /// A decoder that holds nothing back.
    pub fn new() -> (r: Self)
        ensures
            r@ == Seq::<u8>::empty(),
    {
        Utf8Decoder { pending: Vec::new() }
    }

    /// Decodes `chunk` after the bytes held back so far, and holds back the
    /// incomplete character at the end, if any.
    pub fn feed(&mut self, chunk: &[u8]) -> (text: String)
        ensures
            text@ == shown_text(ready_part(old(self)@ + chunk@)),
            final(self)@ == held_part(old(self)@ + chunk@),
    {
        let mut all = Vec::new();
        std::mem::swap(&mut all, &mut self.pending);
        all.extend_from_slice(chunk);
        let held = incomplete_tail_len(all.as_slice());
        let cut = all.len() - held;
        let ghost whole = old(self)@ + chunk@;
        assert(all@ =~= whole);
        let rest = all.split_off(cut);
        assert(all@ =~= ready_part(whole));
        assert(rest@ =~= held_part(whole));
        let text = text_of(all.as_slice());
        self.pending = rest;
        text
    }

    /// Shows what is held back, as at the end of the stream.
    pub fn finish(&mut self) -> (text: String)
        ensures
            text@ == shown_text(old(self)@),
            final(self)@ == Seq::<u8>::empty(),
    {
        let text = text_of(self.pending.as_slice());
        self.pending = Vec::new();
        text
    }
}

} // verus!
