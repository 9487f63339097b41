//! The wire protocol: JSON texts exchanged with clients.
//!
//! Outbound messages (the world snapshot on connect and the per-tick update)
//! are rendered exactly, character for character, by the `spec_*_json`
//! functions. Inbound client messages are read by a parser whose grammar is
//! the deterministic spec-level parser [`spec_parse_message`]: the
//! executable parser returns `Ok` exactly on the texts that grammar accepts.
//! The grammar takes the two members of an `input` body in either order and
//! whitespace between any two tokens; member names are plain (unescaped)
//! strings, as every conforming client writes them.

use vstd::prelude::*;
use vstd::string::{StrSliceExecFns, StringExecFns};

verus! {

/// The per-tick broadcast: announced players, removed players, and the
/// serialized input of each player, keyed and ordered by player id.
pub struct Update {
    pub new_players: Vec<u64>,
    pub removed_players: Vec<u64>,
    pub inputs: Vec<(u64, Vec<u8>)>,
}

/// The snapshot sent to a freshly connected client.
pub struct World {
    pub frame: u64,
    pub world: Vec<u8>,
}

/// A message a client sends: either a request to join at a frame, or one
/// input for a frame.
#[derive(PartialEq, Eq, Debug)]
pub enum ClientMessage {
    Join { frame: u64 },
    Input { frame: u64, input: Vec<u8> },
}

/// Ghost image of a [`ClientMessage`].
#[verifier::ext_equal]
pub ghost enum MessageView {
    Join { frame: u64 },
    Input { frame: u64, input: Seq<u8> },
}

impl View for ClientMessage {
    type V = MessageView;

    open spec fn view(&self) -> MessageView {
        match self {
            ClientMessage::Join { frame } => MessageView::Join { frame: *frame },
            ClientMessage::Input { frame, input } => MessageView::Input {
                frame: *frame,
                input: input@,
            },
        }
    }
}

/// Raised when a client's text is not a well-formed message.
#[derive(Debug)]
pub struct DeserializeError;

/// The decimal digits of `n`, most significant first.
pub open spec fn dec_digits(n: nat) -> Seq<char>
    decreases n,
{
    if n < 10 {
        seq![digit_char(n)]
    } else {
        dec_digits(n / 10).push(digit_char(n % 10))
    }
}

/// The character for one decimal digit.
pub open spec fn digit_char(d: nat) -> char {
    (48 + d) as char
}

/// A byte vector as a JSON array of numbers: the text between `[` and `]`.
pub open spec fn bytes_inner(s: Seq<u8>) -> Seq<char>
    decreases s.len(),
{
    if s.len() == 0 {
        Seq::empty()
    } else if s.len() == 1 {
        dec_digits(s[0] as nat)
    } else {
        bytes_inner(s.drop_last()) + seq![','] + dec_digits(s.last() as nat)
    }
}

/// A byte vector as a JSON array of numbers.
pub open spec fn spec_bytes_json(s: Seq<u8>) -> Seq<char> {
    seq!['['] + bytes_inner(s) + seq![']']
}

/// An id vector as a JSON array of numbers: the text between `[` and `]`.
pub open spec fn ids_inner(s: Seq<u64>) -> Seq<char>
    decreases s.len(),
{
    if s.len() == 0 {
        Seq::empty()
    } else if s.len() == 1 {
        dec_digits(s[0] as nat)
    } else {
        ids_inner(s.drop_last()) + seq![','] + dec_digits(s.last() as nat)
    }
}

/// An id vector as a JSON array of numbers.
pub open spec fn spec_ids_json(s: Seq<u64>) -> Seq<char> {
    seq!['['] + ids_inner(s) + seq![']']
}

/// The input map as a JSON object keyed by decimal player ids: the text
/// between `{` and `}`.
pub open spec fn inputs_inner(s: Seq<(u64, Seq<u8>)>) -> Seq<char>
    decreases s.len(),
{
    if s.len() == 0 {
        Seq::empty()
    } else if s.len() == 1 {
        input_entry(s[0])
    } else {
        inputs_inner(s.drop_last()) + seq![','] + input_entry(s.last())
    }
}

/// One input-map entry: `"<id>":<bytes>`.
pub open spec fn input_entry(e: (u64, Seq<u8>)) -> Seq<char> {
    seq!['"'] + dec_digits(e.0 as nat) + seq!['"', ':'] + spec_bytes_json(e.1)
}

/// The world snapshot, exactly as sent.
pub open spec fn spec_world_json(frame: u64, world: Seq<u8>) -> Seq<char> {
    "{\"frame\":"@ + dec_digits(frame as nat) + ",\"world\":"@ + spec_bytes_json(world) + "}"@
}

/// The per-tick update, exactly as sent.
pub open spec fn spec_update_json(
    new_players: Seq<u64>,
    removed_players: Seq<u64>,
    inputs: Seq<(u64, Seq<u8>)>,
) -> Seq<char> {
    "{\"newPlayers\":"@ + spec_ids_json(new_players) + ",\"removedPlayers\":"@ + spec_ids_json(
        removed_players,
    ) + ",\"inputs\":{"@ + inputs_inner(inputs) + "}}"@
}


/// JSON whitespace.
pub open spec fn is_ws(c: char) -> bool {
    c == ' ' || c == '\n' || c == '\t' || c == '\r'
}

/// The first position at or after `i` holding a non-whitespace character.
pub open spec fn skip_ws(s: Seq<char>, i: int) -> int
    decreases s.len() - i,
{
    if 0 <= i < s.len() && is_ws(s[i]) {
        skip_ws(s, i + 1)
    } else {
        i
    }
}

/// A decimal digit character.
pub open spec fn is_digit(c: char) -> bool {
    48 <= c as int <= 57
}

/// The end of the digit run starting at `i`.
pub open spec fn digits_end(s: Seq<char>, i: int) -> int
    decreases s.len() - i,
{
    if 0 <= i < s.len() && is_digit(s[i]) {
        digits_end(s, i + 1)
    } else {
        i
    }
}

/// The value of the digits in `[i, j)`.
pub open spec fn digits_val(s: Seq<char>, i: int, j: int) -> int
    decreases j - i,
{
    if i >= j {
        0
    } else {
        digits_val(s, i, j - 1) * 10 + (s[j - 1] as int - 48)
    }
}

/// A JSON `u64` at position `i`: a digit run without a superfluous leading
/// zero whose value fits, yielding the value and the position after it.
pub open spec fn parse_u64_at(s: Seq<char>, i: int) -> Option<(u64, int)> {
    let j = digits_end(s, i);
    if j == i {
        None
    } else if s[i] == '0' && j > i + 1 {
        None
    } else if digits_val(s, i, j) > u64::MAX {
        None
    } else {
        Some((digits_val(s, i, j) as u64, j))
    }
}

/// The literal `lit` at position `i`, yielding the position after it.
pub open spec fn match_lit(s: Seq<char>, i: int, lit: Seq<char>) -> Option<int> {
    if 0 <= i && i + lit.len() <= s.len() && s.subrange(i, i + lit.len()) == lit {
        Some(i + lit.len())
    } else {
        None
    }
}

/// The remaining elements of a byte array, each a number below 256 with
/// whitespace around it, separated by commas and closed by `]`; `acc` holds
/// the elements already read.
pub open spec fn parse_byte_elems(s: Seq<char>, i: int, acc: Seq<u8>) -> Option<(Seq<u8>, int)>
    decreases s.len() - i,
{
    let w = skip_ws(s, i);
    match parse_u64_at(s, w) {
        None => None,
        Some((v, j)) => if v > 255 {
            None
        } else {
            let k = skip_ws(s, j);
            if 0 <= k < s.len() && s[k] == ']' {
                Some((acc.push(v as u8), k + 1))
            } else if 0 <= k < s.len() && s[k] == ',' {
                if k + 1 > i && k < s.len() {
                    parse_byte_elems(s, k + 1, acc.push(v as u8))
                } else {
                    None
                }
            } else {
                None
            }
        },
    }
}

/// A JSON array of bytes at position `i`.
pub open spec fn parse_bytes_at(s: Seq<char>, i: int) -> Option<(Seq<u8>, int)> {
    if 0 <= i < s.len() && s[i] == '[' {
        let k = skip_ws(s, i + 1);
        if 0 <= k < s.len() && s[k] == ']' {
            Some((Seq::empty(), k + 1))
        } else {
            parse_byte_elems(s, i + 1, Seq::empty())
        }
    } else {
        None
    }
}

/// `"frame" : <u64>` at position `i` (whitespace allowed around the colon),
/// yielding the frame and the position after the number.
pub open spec fn parse_frame_field(s: Seq<char>, i: int) -> Option<(u64, int)> {
    match match_lit(s, i, "\"frame\""@) {
        None => None,
        Some(j) => {
            let k = skip_ws(s, j);
            if 0 <= k < s.len() && s[k] == ':' {
                parse_u64_at(s, skip_ws(s, k + 1))
            } else {
                None
            }
        },
    }
}

/// The body of a `join`: `{ "frame": <u64> }`.
pub open spec fn parse_join_body(s: Seq<char>, i: int) -> Option<(u64, int)> {
    if 0 <= i < s.len() && s[i] == '{' {
        match parse_frame_field(s, skip_ws(s, i + 1)) {
            None => None,
            Some((frame, j)) => {
                let k = skip_ws(s, j);
                if 0 <= k < s.len() && s[k] == '}' {
                    Some((frame, k + 1))
                } else {
                    None
                }
            },
        }
    } else {
        None
    }
}

/// `"input" : <bytes>` at position `i` (whitespace allowed around the
/// colon), yielding the bytes and the position after them.
pub open spec fn parse_input_field(s: Seq<char>, i: int) -> Option<(Seq<u8>, int)> {
    match match_lit(s, i, "\"input\""@) {
        None => None,
        Some(j) => {
            let k = skip_ws(s, j);
            if 0 <= k < s.len() && s[k] == ':' {
                parse_bytes_at(s, skip_ws(s, k + 1))
            } else {
                None
            }
        },
    }
}

/// The body of an `input`: a two-member object holding `"frame"` and
/// `"input"`, in either order.
pub open spec fn parse_input_body(s: Seq<char>, i: int) -> Option<(u64, Seq<u8>, int)> {
    if 0 <= i < s.len() && s[i] == '{' {
        let j0 = skip_ws(s, i + 1);
        if match_lit(s, j0, "\"frame\""@) is Some {
            match parse_frame_field(s, j0) {
                None => None,
                Some((frame, j)) => {
                    let k = skip_ws(s, j);
                    if 0 <= k < s.len() && s[k] == ',' {
                        match parse_input_field(s, skip_ws(s, k + 1)) {
                            None => None,
                            Some((bytes, j3)) => {
                                let k3 = skip_ws(s, j3);
                                if 0 <= k3 < s.len() && s[k3] == '}' {
                                    Some((frame, bytes, k3 + 1))
                                } else {
                                    None
                                }
                            },
                        }
                    } else {
                        None
                    }
                },
            }
        } else {
            match parse_input_field(s, j0) {
                None => None,
                Some((bytes, j)) => {
                    let k = skip_ws(s, j);
                    if 0 <= k < s.len() && s[k] == ',' {
                        match parse_frame_field(s, skip_ws(s, k + 1)) {
                            None => None,
                            Some((frame, j3)) => {
                                let k3 = skip_ws(s, j3);
                                if 0 <= k3 < s.len() && s[k3] == '}' {
                                    Some((frame, bytes, k3 + 1))
                                } else {
                                    None
                                }
                            },
                        }
                    } else {
                        None
                    }
                },
            }
        }
    } else {
        None
    }
}

/// The grammar of a client message: a one-key object whose key picks the
/// variant, with whitespace allowed between tokens and nothing but
/// whitespace after it.
pub open spec fn spec_parse_message(s: Seq<char>) -> Option<MessageView> {
    let i = skip_ws(s, 0);
    if 0 <= i < s.len() && s[i] == '{' {
        let j = skip_ws(s, i + 1);
        match match_lit(s, j, "\"join\""@) {
            Some(j2) => {
                let k = skip_ws(s, j2);
                if 0 <= k < s.len() && s[k] == ':' {
                    match parse_join_body(s, skip_ws(s, k + 1)) {
                        None => None,
                        Some((frame, j3)) => {
                            let k3 = skip_ws(s, j3);
                            if 0 <= k3 < s.len() && s[k3] == '}' && skip_ws(s, k3 + 1) == s.len() {
                                Some(MessageView::Join { frame })
                            } else {
                                None
                            }
                        },
                    }
                } else {
                    None
                }
            },
            None => match match_lit(s, j, "\"input\""@) {
                Some(j2) => {
                    let k = skip_ws(s, j2);
                    if 0 <= k < s.len() && s[k] == ':' {
                        match parse_input_body(s, skip_ws(s, k + 1)) {
                            None => None,
                            Some((frame, input, j3)) => {
                                let k3 = skip_ws(s, j3);
                                if 0 <= k3 < s.len() && s[k3] == '}' && skip_ws(s, k3 + 1)
                                    == s.len() {
                                    Some(MessageView::Input { frame, input })
                                } else {
                                    None
                                }
                            },
                        }
                    } else {
                        None
                    }
                },
                None => None,
            },
        }
    } else {
        None
    }
}

/// Appends one digit character.
fn push_digit(out: &mut String, d: u64)
    requires
        d < 10,
    ensures
        final(out)@ == old(out)@ + seq![digit_char(d as nat)],
{
    let piece = match d {
        0 => "0",
        1 => "1",
        2 => "2",
        3 => "3",
        4 => "4",
        5 => "5",
        6 => "6",
        7 => "7",
        8 => "8",
        _ => "9",
    };
    proof {
        reveal_strlit("0");
        reveal_strlit("1");
        reveal_strlit("2");
        reveal_strlit("3");
        reveal_strlit("4");
        reveal_strlit("5");
        reveal_strlit("6");
        reveal_strlit("7");
        reveal_strlit("8");
        reveal_strlit("9");
        assert(piece@ =~= seq![digit_char(d as nat)]);
    }
    out.append(piece);
}

/// Appends `n` in decimal.
fn push_u64(out: &mut String, n: u64)
    ensures
        final(out)@ == old(out)@ + dec_digits(n as nat),
    decreases n,
{
    if n >= 10 {
        push_u64(out, n / 10);
        push_digit(out, n % 10);
        proof {
            assert(final(out)@ =~= old(out)@ + dec_digits(n as nat));
        }
    } else {
        push_digit(out, n);
    }
}

/// Appends a byte vector as a JSON array of numbers.
fn push_bytes_json(out: &mut String, bytes: &Vec<u8>)
    ensures
        final(out)@ == old(out)@ + spec_bytes_json(bytes@),
{
    proof {
        reveal_strlit("[");
        reveal_strlit("]");
        reveal_strlit(",");
    }
    out.append("[");
    let mut i: usize = 0;
    while i < bytes.len()
        invariant
            i <= bytes@.len(),
            out@ == old(out)@ + seq!['['] + bytes_inner(bytes@.take(i as int)),
        decreases bytes@.len() - i,
    {
        proof {
            reveal_strlit(",");
        }
        if i > 0 {
            out.append(",");
        }
        push_u64(out, bytes[i] as u64);
        proof {
            let t1 = bytes@.take(i as int);
            let t2 = bytes@.take(i + 1);
            assert(t2.drop_last() =~= t1);
            assert(t2.last() == bytes@[i as int]);
            if i == 0 {
                assert(t2.len() == 1);
                assert(t2[0] == bytes@[0]);
                assert(bytes_inner(t2) == dec_digits(bytes@[0] as nat));
            }
            assert(out@ =~= old(out)@ + seq!['['] + bytes_inner(t2));
        }
        i += 1;
    }
    proof {
        assert(bytes@.take(bytes@.len() as int) =~= bytes@);
    }
    out.append("]");
    proof {
        assert(out@ =~= old(out)@ + spec_bytes_json(bytes@));
    }
}

/// Appends an id vector as a JSON array of numbers.
fn push_ids_json(out: &mut String, ids: &Vec<u64>)
    ensures
        final(out)@ == old(out)@ + spec_ids_json(ids@),
{
    proof {
        reveal_strlit("[");
        reveal_strlit("]");
        reveal_strlit(",");
    }
    out.append("[");
    let mut i: usize = 0;
    while i < ids.len()
        invariant
            i <= ids@.len(),
            out@ == old(out)@ + seq!['['] + ids_inner(ids@.take(i as int)),
        decreases ids@.len() - i,
    {
        proof {
            reveal_strlit(",");
        }
        if i > 0 {
            out.append(",");
        }
        push_u64(out, ids[i]);
        proof {
            let t1 = ids@.take(i as int);
            let t2 = ids@.take(i + 1);
            assert(t2.drop_last() =~= t1);
            assert(t2.last() == ids@[i as int]);
            if i == 0 {
                assert(t2.len() == 1);
                assert(t2[0] == ids@[0]);
                assert(ids_inner(t2) == dec_digits(ids@[0] as nat));
            }
            assert(out@ =~= old(out)@ + seq!['['] + ids_inner(t2));
        }
        i += 1;
    }
    proof {
        assert(ids@.take(ids@.len() as int) =~= ids@);
    }
    out.append("]");
    proof {
        assert(out@ =~= old(out)@ + spec_ids_json(ids@));
    }
}

/// The view of the input map: ids with byte sequences.
pub open spec fn inputs_view(s: Seq<(u64, Vec<u8>)>) -> Seq<(u64, Seq<u8>)> {
    s.map_values(|e: (u64, Vec<u8>)| (e.0, e.1@))
}

/// Renders the world snapshot, exactly as [`spec_world_json`] says.
pub fn world_to_json(world: &World) -> (r: String)
    ensures
        r@ == spec_world_json(world.frame, world.world@),
{
    proof {
        reveal_strlit("{\"frame\":");
        reveal_strlit(",\"world\":");
        reveal_strlit("}");
    }
    let mut out = String::new();
    out.append("{\"frame\":");
    push_u64(&mut out, world.frame);
    out.append(",\"world\":");
    push_bytes_json(&mut out, &world.world);
    out.append("}");
    proof {
        assert(out@ =~= spec_world_json(world.frame, world.world@));
    }
    out
}

/// Renders the per-tick update, exactly as [`spec_update_json`] says.
pub fn update_to_json(update: &Update) -> (r: String)
    ensures
        r@ == spec_update_json(
            update.new_players@,
            update.removed_players@,
            inputs_view(update.inputs@),
        ),
{
    proof {
        reveal_strlit("{\"newPlayers\":");
        reveal_strlit(",\"removedPlayers\":");
        reveal_strlit(",\"inputs\":{");
        reveal_strlit("}}");
        reveal_strlit(",");
        reveal_strlit("\"");
        reveal_strlit("\":");
    }
    let mut out = String::new();
    out.append("{\"newPlayers\":");
    push_ids_json(&mut out, &update.new_players);
    out.append(",\"removedPlayers\":");
    push_ids_json(&mut out, &update.removed_players);
    out.append(",\"inputs\":{");
    let ghost base = out@;
    let mut i: usize = 0;
    while i < update.inputs.len()
        invariant
            i <= update.inputs@.len(),
            out@ == base + inputs_inner(inputs_view(update.inputs@).take(i as int)),
        decreases update.inputs@.len() - i,
    {
        proof {
            reveal_strlit(",");
            reveal_strlit("\"");
            reveal_strlit("\":");
        }
        if i > 0 {
            out.append(",");
        }
        out.append("\"");
        push_u64(&mut out, update.inputs[i].0);
        out.append("\":");
        push_bytes_json(&mut out, &update.inputs[i].1);
        proof {
            let iv = inputs_view(update.inputs@);
            let t1 = iv.take(i as int);
            let t2 = iv.take(i + 1);
            assert(t2.drop_last() =~= t1);
            assert(t2.last() == iv[i as int]);
            assert(iv[i as int] == (update.inputs@[i as int].0, update.inputs@[i as int].1@));
            if i == 0 {
                assert(t2.len() == 1);
                assert(t2[0] == iv[0]);
                assert(inputs_inner(t2) == input_entry(iv[0]));
            }
            assert(out@ =~= base + inputs_inner(t2));
        }
        i += 1;
    }
    proof {
        let iv = inputs_view(update.inputs@);
        assert(iv.take(iv.len() as int) =~= iv);
    }
    out.append("}}");
    proof {
        assert(out@ =~= spec_update_json(
            update.new_players@,
            update.removed_players@,
            inputs_view(update.inputs@),
        ));
    }
    out
}


/// Every position of a digit run holds a digit.
proof fn lemma_digits_end_range(s: Seq<char>, i: int, m: int)
    requires
        0 <= i,
        i <= m < digits_end(s, i),
    ensures
        is_digit(s[m]),
    decreases m - i,
{
    if m > i {
        lemma_digits_end_range(s, i + 1, m);
    }
}

/// Appending digits never shrinks the value, as long as the base is not
/// negative.
proof fn lemma_digits_val_grows(s: Seq<char>, i: int, k: int, j: int)
    requires
        i <= k <= j,
        digits_val(s, i, k) >= 0,
        forall|m: int| k <= m < j ==> is_digit(#[trigger] s[m]),
    ensures
        digits_val(s, i, j) >= digits_val(s, i, k),
    decreases j - k,
{
    if j > k {
        lemma_digits_val_grows(s, i, k, j - 1);
        assert(is_digit(s[j - 1]));
    }
}

/// The first non-whitespace position, executably.
fn ws_end(s: &str, i: usize) -> (r: usize)
    requires
        i <= s@.len(),
    ensures
        r == skip_ws(s@, i as int),
        i <= r <= s@.len(),
    decreases s@.len() - i,
{
    if i < s.unicode_len() {
        let c = s.get_char(i);
        if c == ' ' || c == '\n' || c == '\t' || c == '\r' {
            return ws_end(s, i + 1);
        }
    }
    i
}

/// The end of the digit run, executably.
fn digits_stop(s: &str, i: usize) -> (r: usize)
    requires
        i <= s@.len(),
    ensures
        r == digits_end(s@, i as int),
        i <= r <= s@.len(),
    decreases s@.len() - i,
{
    if i < s.unicode_len() {
        let c = s.get_char(i);
        if '0' <= c && c <= '9' {
            return digits_stop(s, i + 1);
        }
    }
    i
}

/// Reads a JSON `u64`, exactly as [`parse_u64_at`] does.
fn read_u64(s: &str, i: usize) -> (r: Option<(u64, usize)>)
    requires
        i <= s@.len(),
    ensures
        match r {
            Some((v, j)) => parse_u64_at(s@, i as int) == Some((v, j as int)) && i < j <= s@.len(),
            None => parse_u64_at(s@, i as int) is None,
        },
{
    let end = digits_stop(s, i);
    if end == i {
        return None;
    }
    if s.get_char(i) == '0' && end > i + 1 {
        return None;
    }
    let mut val: u64 = 0;
    let mut k: usize = i;
    while k < end
        invariant
            i <= k <= end,
            end == digits_end(s@, i as int),
            end <= s@.len(),
            val == digits_val(s@, i as int, k as int),
        decreases end - k,
    {
        proof {
            lemma_digits_end_range(s@, i as int, k as int);
        }
        let c = s.get_char(k);
        let d = (c as u32 as u64) - 48;
        if val > (u64::MAX - d) / 10 {
            proof {
                assert(digits_val(s@, i as int, k + 1) == val * 10 + d > u64::MAX);
                assert forall|m: int| k + 1 <= m < end implies is_digit(#[trigger] s@[m]) by {
                    lemma_digits_end_range(s@, i as int, m);
                }
                lemma_digits_val_grows(s@, i as int, k + 1, end as int);
            }
            return None;
        }
        val = val * 10 + d;
        k += 1;
    }
    Some((val, end))
}

/// Tests for the literal `lit` at position `i`, exactly as [`match_lit`].
fn lit_match(s: &str, i: usize, lit: &str) -> (r: bool)
    requires
        i <= s@.len(),
    ensures
        r <==> match_lit(s@, i as int, lit@) is Some,
{
    let n = lit.unicode_len();
    let sl = s.unicode_len();
    if n > sl - i {
        proof {
            assert(match_lit(s@, i as int, lit@) is None);
        }
        return false;
    }
    let mut k: usize = 0;
    while k < n
        invariant
            k <= n,
            n == lit@.len(),
            sl == s@.len(),
            i + n <= sl,
            forall|m: int| 0 <= m < k ==> s@[i + m] == lit@[m],
        decreases n - k,
    {
        if s.get_char(i + k) != lit.get_char(k) {
            proof {
                if match_lit(s@, i as int, lit@) is Some {
                    assert(s@.subrange(i as int, i + lit@.len())[k as int] == lit@[k as int]);
                    assert(false);
                }
            }
            return false;
        }
        k += 1;
    }
    proof {
        assert(s@.subrange(i as int, i + lit@.len()) =~= lit@);
    }
    true
}

/// Reads a JSON array of bytes, exactly as [`parse_bytes_at`].
fn read_bytes(s: &str, i: usize) -> (r: Option<(Vec<u8>, usize)>)
    requires
        i <= s@.len(),
    ensures
        match r {
            Some((bytes, j)) => parse_bytes_at(s@, i as int) == Some((bytes@, j as int)) && j
                <= s@.len(),
            None => parse_bytes_at(s@, i as int) is None,
        },
{
    if !(i < s.unicode_len() && s.get_char(i) == '[') {
        return None;
    }
    let k0 = ws_end(s, i + 1);
    if k0 < s.unicode_len() && s.get_char(k0) == ']' {
        proof {
            assert(parse_bytes_at(s@, i as int) == Some((Seq::<u8>::empty(), k0 + 1 as int)));
        }
        let empty: Vec<u8> = Vec::new();
        proof {
            assert(empty@ =~= Seq::<u8>::empty());
        }
        return Some((empty, k0 + 1));
    }
    let mut acc: Vec<u8> = Vec::new();
    let mut pos: usize = i + 1;
    let ghost goal = parse_byte_elems(s@, i + 1 as int, Seq::<u8>::empty());
    loop
        invariant
            pos <= s@.len(),
            parse_byte_elems(s@, pos as int, acc@) == goal,
            goal == parse_bytes_at(s@, i as int),
        decreases s@.len() - pos,
    {
        let w = ws_end(s, pos);
        let (v, j) = match read_u64(s, w) {
            Some(p) => p,
            None => {
                return None;
            },
        };
        if v > 255 {
            return None;
        }
        let k = ws_end(s, j);
        if k < s.unicode_len() && s.get_char(k) == ']' {
            acc.push(v as u8);
            return Some((acc, k + 1));
        }
        if k < s.unicode_len() && s.get_char(k) == ',' {
            acc.push(v as u8);
            pos = k + 1;
        } else {
            return None;
        }
    }
}

/// Reads `"frame" : <u64>`, exactly as [`parse_frame_field`].
fn read_frame_field(s: &str, i: usize) -> (r: Option<(u64, usize)>)
    requires
        i <= s@.len(),
    ensures
        match r {
            Some((frame, j)) => parse_frame_field(s@, i as int) == Some((frame, j as int)) && j
                <= s@.len(),
            None => parse_frame_field(s@, i as int) is None,
        },
{
    proof {
        reveal_strlit("\"frame\"");
    }
    // pins the text's length into the machine range for the index arithmetic
    let _chars = s.unicode_len();
    if !lit_match(s, i, "\"frame\"") {
        return None;
    }
    proof {
        assert("\"frame\""@.len() == 7);
    }
    let j = i + 7;
    let k = ws_end(s, j);
    if !(k < s.unicode_len() && s.get_char(k) == ':') {
        return None;
    }
    read_u64(s, ws_end(s, k + 1))
}

/// Reads a `join` body, exactly as [`parse_join_body`].
fn read_join_body(s: &str, i: usize) -> (r: Option<(u64, usize)>)
    requires
        i <= s@.len(),
    ensures
        match r {
            Some((frame, j)) => parse_join_body(s@, i as int) == Some((frame, j as int)) && j
                <= s@.len(),
            None => parse_join_body(s@, i as int) is None,
        },
{
    if !(i < s.unicode_len() && s.get_char(i) == '{') {
        return None;
    }
    let (frame, j) = match read_frame_field(s, ws_end(s, i + 1)) {
        Some(p) => p,
        None => {
            return None;
        },
    };
    let k = ws_end(s, j);
    if k < s.unicode_len() && s.get_char(k) == '}' {
        Some((frame, k + 1))
    } else {
        None
    }
}

/// Reads `"input" : <bytes>`, exactly as [`parse_input_field`].
fn read_input_field(s: &str, i: usize) -> (r: Option<(Vec<u8>, usize)>)
    requires
        i <= s@.len(),
    ensures
        match r {
            Some((bytes, j)) => parse_input_field(s@, i as int) == Some((bytes@, j as int)) && j
                <= s@.len(),
            None => parse_input_field(s@, i as int) is None,
        },
{
    proof {
        reveal_strlit("\"input\"");
    }
    // pins the text's length into the machine range for the index arithmetic
    let _chars = s.unicode_len();
    if !lit_match(s, i, "\"input\"") {
        return None;
    }
    proof {
        assert("\"input\""@.len() == 7);
    }
    let j = i + 7;
    let k = ws_end(s, j);
    if !(k < s.unicode_len() && s.get_char(k) == ':') {
        return None;
    }
    read_bytes(s, ws_end(s, k + 1))
}

/// Reads an `input` body, exactly as [`parse_input_body`].
fn read_input_body(s: &str, i: usize) -> (r: Option<(u64, Vec<u8>, usize)>)
    requires
        i <= s@.len(),
    ensures
        match r {
            Some((frame, input, j)) => parse_input_body(s@, i as int) == Some(
                (frame, input@, j as int),
            ) && j <= s@.len(),
            None => parse_input_body(s@, i as int) is None,
        },
{
    proof {
        reveal_strlit("\"input\"");
        reveal_strlit("\"frame\"");
    }
    if !(i < s.unicode_len() && s.get_char(i) == '{') {
        return None;
    }
    let j0 = ws_end(s, i + 1);
    if lit_match(s, j0, "\"frame\"") {
        let (frame, j) = match read_frame_field(s, j0) {
            Some(p) => p,
            None => {
                return None;
            },
        };
        let k = ws_end(s, j);
        if !(k < s.unicode_len() && s.get_char(k) == ',') {
            return None;
        }
        let (bytes, j3) = match read_input_field(s, ws_end(s, k + 1)) {
            Some(p) => p,
            None => {
                return None;
            },
        };
        let k3 = ws_end(s, j3);
        if k3 < s.unicode_len() && s.get_char(k3) == '}' {
            Some((frame, bytes, k3 + 1))
        } else {
            None
        }
    } else {
        let (bytes, j) = match read_input_field(s, j0) {
            Some(p) => p,
            None => {
                return None;
            },
        };
        let k = ws_end(s, j);
        if !(k < s.unicode_len() && s.get_char(k) == ',') {
            return None;
        }
        let (frame, j3) = match read_frame_field(s, ws_end(s, k + 1)) {
            Some(p) => p,
            None => {
                return None;
            },
        };
        let k3 = ws_end(s, j3);
        if k3 < s.unicode_len() && s.get_char(k3) == '}' {
            Some((frame, bytes, k3 + 1))
        } else {
            None
        }
    }
}

/// Reads one client message: `Ok` exactly on the texts the grammar
/// [`spec_parse_message`] accepts, with the value that grammar yields.
pub fn message_from_json(json: &str) -> (r: Result<ClientMessage, DeserializeError>)
    ensures
        match r {
            Ok(m) => spec_parse_message(json@) == Some(m@),
            Err(_) => spec_parse_message(json@) is None,
        },
{
    proof {
        reveal_strlit("\"join\"");
        reveal_strlit("\"input\"");
    }
    let s = json;
    let i = ws_end(s, 0);
    if !(i < s.unicode_len() && s.get_char(i) == '{') {
        return Err(DeserializeError);
    }
    let j = ws_end(s, i + 1);
    if lit_match(s, j, "\"join\"") {
        proof {
            assert("\"join\""@.len() == 6);
            assert(s@.len() <= usize::MAX);
        }
        let j2 = j + 6;
        let k = ws_end(s, j2);
        if !(k < s.unicode_len() && s.get_char(k) == ':') {
            return Err(DeserializeError);
        }
        let (frame, j3) = match read_join_body(s, ws_end(s, k + 1)) {
            Some(p) => p,
            None => {
                return Err(DeserializeError);
            },
        };
        let k3 = ws_end(s, j3);
        if k3 < s.unicode_len() && s.get_char(k3) == '}' && ws_end(s, k3 + 1) == s.unicode_len() {
            Ok(ClientMessage::Join { frame })
        } else {
            Err(DeserializeError)
        }
    } else if lit_match(s, j, "\"input\"") {
        proof {
            assert("\"input\""@.len() == 7);
            assert(s@.len() <= usize::MAX);
        }
        let j2 = j + 7;
        let k = ws_end(s, j2);
        if !(k < s.unicode_len() && s.get_char(k) == ':') {
            return Err(DeserializeError);
        }
        let (frame, input, j3) = match read_input_body(s, ws_end(s, k + 1)) {
            Some(p) => p,
            None => {
                return Err(DeserializeError);
            },
        };
        let k3 = ws_end(s, j3);
        if k3 < s.unicode_len() && s.get_char(k3) == '}' && ws_end(s, k3 + 1) == s.unicode_len() {
            Ok(ClientMessage::Input { frame, input })
        } else {
            Err(DeserializeError)
        }
    } else {
        Err(DeserializeError)
    }
}

} // verus!
