//! The owned campaign file: a little-endian binary stream of islands,
//! start positions, temples, island masks, projection tables and the
//! state strings the game wrote.

use vstd::prelude::*;

use crate::sausage::model::{dir_of_value, state_of, state_ok, Coord, Direction, GameState};
use crate::text::{append_count, int_text, nat_text, utf8_decoding, utf8_text};

verus! {

/// A position together with a facing.
#[derive(Clone, Copy, Debug, PartialEq, Eq)]
pub struct PositionedDirection {
    pub pos: Coord,
    pub direction: Direction,
}

/// What a read of the stream gives: a value and the offset after it, or
/// the error message.
pub type Step<T> = Result<(T, int), Seq<char>>;

/// The message of a read past the end of the data.
pub open spec fn read_failure(pos: int) -> Seq<char> {
    "binary read failed at byte "@ + nat_text(pos as nat) + ": failed to fill whole buffer"@
}

/// `n` bytes from `pos`.
pub open spec fn bytes_at(s: Seq<u8>, pos: int, n: int) -> Step<Seq<u8>> {
    if 0 <= pos && 0 <= n && pos + n <= s.len() {
        Ok((s.subrange(pos, pos + n), pos + n))
    } else {
        Err(read_failure(pos))
    }
}

/// Four bytes read as a little-endian `i32`.
pub open spec fn le_i32(b: Seq<u8>) -> i32 {
    (b[0] as u32 | (b[1] as u32) << 8u32 | (b[2] as u32) << 16u32 | (b[3] as u32) << 24u32) as i32
}

pub open spec fn i32_at(s: Seq<u8>, pos: int) -> Step<i32> {
    match bytes_at(s, pos, 4) {
        Ok((b, next)) => Ok((le_i32(b), next)),
        Err(message) => Err(message),
    }
}

/// A non-negative `i32` used as a count; `label` names it in the error.
pub open spec fn count_at(s: Seq<u8>, pos: int, label: Seq<char>) -> Step<usize> {
    match i32_at(s, pos) {
        Ok((v, next)) => if v < 0 {
            Err("negative "@ + label + " "@ + int_text(v as int) + " at byte "@ + nat_text(pos as nat))
        } else {
            Ok((v as usize, next))
        },
        Err(message) => Err(message),
    }
}

/// A length written seven bits per byte, low bits first, continuing while
/// the high bit is set; at most as many bits as a `usize` holds.
pub open spec fn length_at(s: Seq<u8>, pos: int, shift: u32, acc: usize) -> Step<usize>
    decreases 100 - shift,
{
    if shift >= usize::BITS || shift >= 100 {
        Err("invalid 7-bit string length at byte "@ + nat_text(pos as nat))
    } else if pos < 0 || pos >= s.len() {
        Err(read_failure(pos))
    } else {
        let b = s[pos];
        let value = acc | (((b & 0x7f) as usize) << shift);
        if b & 0x80 == 0 {
            Ok((value, pos + 1))
        } else {
            length_at(s, pos + 1, (shift + 7) as u32, value)
        }
    }
}

/// A string: its length, then that many bytes of UTF-8.
pub open spec fn string_at(s: Seq<u8>, pos: int) -> Step<Seq<char>> {
    match length_at(s, pos, 0, 0) {
        Err(message) => Err(message),
        Ok((length, start)) => match bytes_at(s, start, length as int) {
            Err(message) => Err(message),
            Ok((b, end)) => match utf8_decoding(b) {
                Ok(text) => Ok((text, end)),
                Err(message) => Err(
                    "invalid UTF-8 string ending at byte "@ + nat_text(end as nat) + ": "@ + message,
                ),
            },
        },
    }
}

pub open spec fn coord_at(s: Seq<u8>, pos: int) -> Step<Coord> {
    match i32_at(s, pos) {
        Err(message) => Err(message),
        Ok((x, p1)) => match i32_at(s, p1) {
            Err(message) => Err(message),
            Ok((y, p2)) => match i32_at(s, p2) {
                Err(message) => Err(message),
                Ok((z, p3)) => Ok((Coord { x, y, z }, p3)),
            },
        },
    }
}

pub open spec fn direction_at(s: Seq<u8>, pos: int) -> Step<Direction> {
    match i32_at(s, pos) {
        Err(message) => Err(message),
        Ok((v, next)) => match dir_of_value(v as int) {
            Some(d) => Ok((d, next)),
            None => Err("invalid direction value "@ + int_text(v as int)),
        },
    }
}

pub open spec fn positioned_at(s: Seq<u8>, pos: int) -> Step<PositionedDirection> {
    match coord_at(s, pos) {
        Err(message) => Err(message),
        Ok((c, p1)) => match direction_at(s, p1) {
            Err(message) => Err(message),
            Ok((d, p2)) => Ok((PositionedDirection { pos: c, direction: d }, p2)),
        },
    }
}

/// A sequential reader over the campaign bytes.
pub struct BinaryReader<'a> {
    pub data: &'a [u8],
    pub offset: usize,
}

impl<'a> BinaryReader<'a> {
    pub fn new(data: &'a [u8]) -> (r: BinaryReader<'a>)
        ensures
            r.data@ == data@,
            r.offset == 0,
    {
        BinaryReader { data, offset: 0 }
    }

    /// The next `length` bytes.
    pub fn bytes(&mut self, length: usize) -> (r: Result<Vec<u8>, String>)
        requires
            old(self).offset <= old(self).data@.len(),
        ensures
            final(self).data@ == old(self).data@,
            final(self).offset <= final(self).data@.len(),
            match bytes_at(old(self).data@, old(self).offset as int, length as int) {
                Ok((b, next)) => r is Ok && r->Ok_0@ == b && final(self).offset == next,
                Err(message) => r is Err && r->Err_0@ == message,
            },
    {
        let total = self.data.len();
        if length > total - self.offset {
            let mut message = String::from_str("binary read failed at byte ");
            append_count(&mut message, self.offset);
            message.append(": failed to fill whole buffer");
            return Err(message);
        }
        let mut out: Vec<u8> = Vec::new();
        let start = self.offset;
        let end = start + length;
        let mut i = start;
        while i < end
            invariant
                start <= i <= end <= self.data@.len(),
                out@ == self.data@.subrange(start as int, i as int),
            decreases end - i,
        {
            out.push(self.data[i]);
            assert(out@ =~= self.data@.subrange(start as int, i + 1));
            i += 1;
        }
        self.offset = end;
        Ok(out)
    }

    /// A little-endian `i32`.
    pub fn i32(&mut self) -> (r: Result<i32, String>)
        requires
            old(self).offset <= old(self).data@.len(),
        ensures
            final(self).data@ == old(self).data@,
            final(self).offset <= final(self).data@.len(),
            match i32_at(old(self).data@, old(self).offset as int) {
                Ok((v, next)) => r == Ok::<i32, String>(v) && final(self).offset == next,
                Err(message) => r is Err && r->Err_0@ == message,
            },
    {
        let b = match self.bytes(4) {
            Ok(b) => b,
            Err(message) => {
                return Err(message);
            },
        };
        let value = (b[0] as u32 | (b[1] as u32) << 8u32 | (b[2] as u32) << 16u32 | (b[3] as u32)
            << 24u32) as i32;
        Ok(value)
    }

    /// A count; see [`count_at`].
    pub fn count(&mut self, label: &str) -> (r: Result<usize, String>)
        requires
            old(self).offset <= old(self).data@.len(),
        ensures
            final(self).data@ == old(self).data@,
            final(self).offset <= final(self).data@.len(),
            match count_at(old(self).data@, old(self).offset as int, label@) {
                Ok((v, next)) => r == Ok::<usize, String>(v) && final(self).offset == next,
                Err(message) => r is Err && r->Err_0@ == message,
            },
    {
        let start = self.offset;
        let value = match self.i32() {
            Ok(v) => v,
            Err(message) => {
                return Err(message);
            },
        };
        if value < 0 {
            let mut message = String::from_str("negative ");
            message.append(label);
            message.append(" ");
            crate::text::append_int(&mut message, value as i64);
            message.append(" at byte ");
            append_count(&mut message, start);
            return Err(message);
        }
        Ok(value as usize)
    }

    /// A string; see [`string_at`].
    pub fn string(&mut self) -> (r: Result<String, String>)
        requires
            old(self).offset <= old(self).data@.len(),
        ensures
            final(self).data@ == old(self).data@,
            final(self).offset <= final(self).data@.len(),
            match string_at(old(self).data@, old(self).offset as int) {
                Ok((text, next)) => r is Ok && r->Ok_0@ == text && final(self).offset == next,
                Err(message) => r is Err && r->Err_0@ == message,
            },
    {
        let ghost s = self.data@;
        let ghost p0 = self.offset as int;
        let mut length: usize = 0;
        let mut shift: u32 = 0;
        loop
            invariant_except_break
                length_at(s, p0, 0, 0) == length_at(s, self.offset as int, shift, length),
            invariant
                self.data@ == s,
                s == old(self).data@,
                p0 == old(self).offset,
                self.offset <= s.len(),
                shift <= 70,
            ensures
                self.data@ == s,
                self.offset <= s.len(),
                length_at(s, p0, 0, 0) == Ok::<(usize, int), Seq<char>>((length, self.offset as int)),
            decreases 100 - shift,
        {
            if shift >= usize::BITS {
                let mut message = String::from_str("invalid 7-bit string length at byte ");
                append_count(&mut message, self.offset);
                return Err(message);
            }
            let b = match self.bytes(1) {
                Ok(b) => b[0],
                Err(message) => {
                    return Err(message);
                },
            };
            length = length | (((b & 0x7f) as usize) << shift);
            if b & 0x80 == 0 {
                break;
            }
            shift = shift + 7;
        }
        let end_of_length = self.offset;
        let content = match self.bytes(length) {
            Ok(b) => b,
            Err(message) => {
                return Err(message);
            },
        };
        match utf8_text(content.as_slice()) {
            Ok(text) => Ok(text),
            Err(error) => {
                let mut message = String::from_str("invalid UTF-8 string ending at byte ");
                append_count(&mut message, self.offset);
                message.append(": ");
                message.append(error.as_str());
                Err(message)
            },
        }
    }

    pub fn coord(&mut self) -> (r: Result<Coord, String>)
        requires
            old(self).offset <= old(self).data@.len(),
        ensures
            final(self).data@ == old(self).data@,
            final(self).offset <= final(self).data@.len(),
            match coord_at(old(self).data@, old(self).offset as int) {
                Ok((c, next)) => r == Ok::<Coord, String>(c) && final(self).offset == next,
                Err(message) => r is Err && r->Err_0@ == message,
            },
    {
        let x = match self.i32() {
            Ok(v) => v,
            Err(message) => {
                return Err(message);
            },
        };
        let y = match self.i32() {
            Ok(v) => v,
            Err(message) => {
                return Err(message);
            },
        };
        let z = match self.i32() {
            Ok(v) => v,
            Err(message) => {
                return Err(message);
            },
        };
        Ok(Coord::new(x, y, z))
    }

    pub fn direction(&mut self) -> (r: Result<Direction, String>)
        requires
            old(self).offset <= old(self).data@.len(),
        ensures
            final(self).data@ == old(self).data@,
            final(self).offset <= final(self).data@.len(),
            match direction_at(old(self).data@, old(self).offset as int) {
                Ok((d, next)) => r == Ok::<Direction, String>(d) && final(self).offset == next,
                Err(message) => r is Err && r->Err_0@ == message,
            },
    {
        let v = match self.i32() {
            Ok(v) => v,
            Err(message) => {
                return Err(message);
            },
        };
        Direction::from_i32(v)
    }

    pub fn positioned(&mut self) -> (r: Result<PositionedDirection, String>)
        requires
            old(self).offset <= old(self).data@.len(),
        ensures
            final(self).data@ == old(self).data@,
            final(self).offset <= final(self).data@.len(),
            match positioned_at(old(self).data@, old(self).offset as int) {
                Ok((p, next)) => r == Ok::<PositionedDirection, String>(p) && final(self).offset
                    == next,
                Err(message) => r is Err && r->Err_0@ == message,
            },
    {
        let pos = match self.coord() {
            Ok(c) => c,
            Err(message) => {
                return Err(message);
            },
        };
        let direction = match self.direction() {
            Ok(d) => d,
            Err(message) => {
                return Err(message);
            },
        };
        Ok(PositionedDirection { pos, direction })
    }

    /// Succeeds exactly at the end of the data.
    pub fn expect_eof(&self) -> (r: Result<(), String>)
        requires
            self.offset <= self.data@.len(),
        ensures
            r is Ok <==> self.offset == self.data@.len(),
            r is Err ==> r->Err_0@ == "trailing campaign data at byte "@ + nat_text(self.offset as nat),
    {
        if self.offset < self.data.len() {
            let mut message = String::from_str("trailing campaign data at byte ");
            append_count(&mut message, self.offset);
            Err(message)
        } else {
            Ok(())
        }
    }
}


/// `k` items one after another.
pub open spec fn repeat_at<T>(s: Seq<u8>, pos: int, k: nat, item: spec_fn(Seq<u8>, int) -> Step<T>) -> Step<Seq<T>>
    decreases k,
{
    if k == 0 {
        Ok((Seq::empty(), pos))
    } else {
        match item(s, pos) {
            Err(message) => Err(message),
            Ok((x, next)) => match repeat_at(s, next, (k - 1) as nat, item) {
                Err(message) => Err(message),
                Ok((rest, end)) => Ok((seq![x] + rest, end)),
            },
        }
    }
}

/// A count, then that many items.
pub open spec fn counted_at<T>(s: Seq<u8>, pos: int, label: Seq<char>, item: spec_fn(Seq<u8>, int) -> Step<T>) -> Step<Seq<T>> {
    match count_at(s, pos, label) {
        Err(message) => Err(message),
        Ok((k, next)) => repeat_at(s, next, k as nat, item),
    }
}

/// Items read so far followed by what the rest gives.
pub open spec fn after_items<T>(done: Seq<T>, rest: Step<Seq<T>>) -> Step<Seq<T>> {
    match rest {
        Ok((xs, end)) => Ok((done + xs, end)),
        Err(message) => Err(message),
    }
}

proof fn lemma_repeat_step<T>(s: Seq<u8>, pos: int, k: nat, item: spec_fn(Seq<u8>, int) -> Step<T>, done: Seq<T>, x: T, next: int)
    requires
        k > 0,
        item(s, pos) == Ok::<(T, int), Seq<char>>((x, next)),
    ensures
        after_items(done, repeat_at(s, pos, k, item)) == after_items(done.push(x), repeat_at(s, next, (k - 1) as nat, item)),
{
    match repeat_at(s, next, (k - 1) as nat, item) {
        Ok((rest, end)) => {
            assert(done + (seq![x] + rest) =~= done.push(x) + rest);
        },
        Err(_) => {},
    }
}

proof fn lemma_repeat_error<T>(s: Seq<u8>, pos: int, k: nat, item: spec_fn(Seq<u8>, int) -> Step<T>, done: Seq<T>, message: Seq<char>)
    requires
        k > 0,
        item(s, pos) == Err::<(T, int), Seq<char>>(message),
    ensures
        after_items(done, repeat_at(s, pos, k, item)) == Err::<(Seq<T>, int), Seq<char>>(message),
{
}

proof fn lemma_repeat_done<T>(s: Seq<u8>, pos: int, item: spec_fn(Seq<u8>, int) -> Step<T>, done: Seq<T>)
    ensures
        after_items(done, repeat_at(s, pos, 0, item)) == Ok::<(Seq<T>, int), Seq<char>>((done, pos)),
{
    assert(done + Seq::<T>::empty() =~= done);
}

/// An island: its name and the offset of its local grid.
pub open spec fn island_item() -> spec_fn(Seq<u8>, int) -> Step<(Seq<char>, Coord)> {
    |s: Seq<u8>, pos: int|
        match string_at(s, pos) {
            Err(message) => Err(message),
            Ok((name, p1)) => match coord_at(s, p1) {
                Err(message) => Err(message),
                Ok((c, p2)) => Ok(((name, c), p2)),
            },
        }
}

pub open spec fn positioned_item() -> spec_fn(Seq<u8>, int) -> Step<PositionedDirection> {
    |s: Seq<u8>, pos: int| positioned_at(s, pos)
}

/// An island's sausage start positions.
pub open spec fn sausage_item() -> spec_fn(Seq<u8>, int) -> Step<(Seq<char>, Seq<PositionedDirection>)> {
    |s: Seq<u8>, pos: int|
        match string_at(s, pos) {
            Err(message) => Err(message),
            Ok((name, p1)) => match counted_at(s, p1, "sausage-position count"@, positioned_item()) {
                Err(message) => Err(message),
                Ok((positions, p2)) => Ok(((name, positions), p2)),
            },
        }
}

/// A puzzle's player start position.
pub open spec fn player_item() -> spec_fn(Seq<u8>, int) -> Step<(Seq<char>, PositionedDirection)> {
    |s: Seq<u8>, pos: int|
        match string_at(s, pos) {
            Err(message) => Err(message),
            Ok((name, p1)) => match positioned_at(s, p1) {
                Err(message) => Err(message),
                Ok((p, p2)) => Ok(((name, p), p2)),
            },
        }
}

pub open spec fn string_item() -> spec_fn(Seq<u8>, int) -> Step<Seq<char>> {
    |s: Seq<u8>, pos: int| string_at(s, pos)
}

/// A temple: its name and its levels.
pub open spec fn temple_item() -> spec_fn(Seq<u8>, int) -> Step<(Seq<char>, Seq<Seq<char>>)> {
    |s: Seq<u8>, pos: int|
        match string_at(s, pos) {
            Err(message) => Err(message),
            Ok((name, p1)) => match counted_at(s, p1, "temple level count"@, string_item()) {
                Err(message) => Err(message),
                Ok((levels, p2)) => Ok(((name, levels), p2)),
            },
        }
}

pub open spec fn i32_item() -> spec_fn(Seq<u8>, int) -> Step<i32> {
    |s: Seq<u8>, pos: int| i32_at(s, pos)
}

/// The cells of an island mask, as dimensions, values and offset.
pub type MaskView = (Seq<usize>, Seq<i32>, Coord);

/// An island mask: name, width, height and depth, one `i32` per cell, then
/// the mask's offset. The cell count is the product, computed left to
/// right without overflow.
pub open spec fn mask_item() -> spec_fn(Seq<u8>, int) -> Step<(Seq<char>, MaskView)> {
    |s: Seq<u8>, pos: int|
        match string_at(s, pos) {
            Err(message) => Err(message),
            Ok((name, p1)) => match count_at(s, p1, "island-mask width"@) {
                Err(message) => Err(message),
                Ok((w, p2)) => match count_at(s, p2, "island-mask height"@) {
                    Err(message) => Err(message),
                    Ok((h, p3)) => match count_at(s, p3, "island-mask depth"@) {
                        Err(message) => Err(message),
                        Ok((d, p4)) => if w * h > usize::MAX || w * h * d > usize::MAX {
                            Err("island-mask dimensions overflow"@)
                        } else {
                            match repeat_at(s, p4, (w * h * d) as nat, i32_item()) {
                                Err(message) => Err(message),
                                Ok((cells, p5)) => match coord_at(s, p5) {
                                    Err(message) => Err(message),
                                    Ok((offset, p6)) => Ok(((name, (seq![w, h, d], cells, offset)), p6)),
                                },
                            }
                        },
                    },
                },
            },
        }
}

/// A projection table: dimensions and one flag per cell.
pub type ProjectionView = (Seq<usize>, Seq<bool>);

pub open spec fn projection_inner_item() -> spec_fn(Seq<u8>, int) -> Step<(Seq<char>, ProjectionView)> {
    |s: Seq<u8>, pos: int|
        match string_at(s, pos) {
            Err(message) => Err(message),
            Ok((name, p1)) => match count_at(s, p1, "projection width"@) {
                Err(message) => Err(message),
                Ok((w, p2)) => match count_at(s, p2, "projection height"@) {
                    Err(message) => Err(message),
                    Ok((h, p3)) => if w * h > usize::MAX {
                        Err("projection dimensions overflow"@)
                    } else {
                        match bytes_at(s, p3, w * h) {
                            Err(message) => Err(message),
                            Ok((b, p4)) => Ok(((name, (seq![w, h], b.map_values(|c: u8| c != 0))), p4)),
                        }
                    },
                },
            },
        }
}

pub open spec fn projection_item() -> spec_fn(Seq<u8>, int) -> Step<(Seq<char>, Seq<(Seq<char>, ProjectionView)>)> {
    |s: Seq<u8>, pos: int|
        match string_at(s, pos) {
            Err(message) => Err(message),
            Ok((name, p1)) => match counted_at(s, p1, "projection inner count"@, projection_inner_item()) {
                Err(message) => Err(message),
                Ok((inner, p2)) => Ok(((name, inner), p2)),
            },
        }
}

/// A coordinate, read and set aside.
pub open spec fn coord_skip_item() -> spec_fn(Seq<u8>, int) -> Step<()> {
    |s: Seq<u8>, pos: int|
        match coord_at(s, pos) {
            Err(message) => Err(message),
            Ok((_c, next)) => Ok(((), next)),
        }
}

/// A group of a coordinate map: a key and a counted list of coordinates,
/// all set aside.
pub open spec fn coord_group_item(coord_label: Seq<char>) -> spec_fn(Seq<u8>, int) -> Step<()> {
    |s: Seq<u8>, pos: int|
        match i32_at(s, pos) {
            Err(message) => Err(message),
            Ok((_key, p1)) => match counted_at(s, p1, coord_label, coord_skip_item()) {
                Err(message) => Err(message),
                Ok((_coords, p2)) => Ok(((), p2)),
            },
        }
}

/// An island's coordinate map: a name and its counted groups, set aside.
pub open spec fn coord_map_item(group_label: Seq<char>, coord_label: Seq<char>) -> spec_fn(Seq<u8>, int) -> Step<()> {
    |s: Seq<u8>, pos: int|
        match string_at(s, pos) {
            Err(message) => Err(message),
            Ok((_name, p1)) => match counted_at(s, p1, group_label, coord_group_item(coord_label)) {
                Err(message) => Err(message),
                Ok((_groups, p2)) => Ok(((), p2)),
            },
        }
}

/// A barbecue island: a name and a counted list of coordinates, set aside.
pub open spec fn bbq_item() -> spec_fn(Seq<u8>, int) -> Step<()> {
    |s: Seq<u8>, pos: int|
        match string_at(s, pos) {
            Err(message) => Err(message),
            Ok((_name, p1)) => match counted_at(s, p1, "bbq coordinate count"@, coord_skip_item()) {
                Err(message) => Err(message),
                Ok((_coords, p2)) => Ok(((), p2)),
            },
        }
}

pub open spec fn tree_entry_item() -> spec_fn(Seq<u8>, int) -> Step<()> {
    |s: Seq<u8>, pos: int|
        match coord_at(s, pos) {
            Err(message) => Err(message),
            Ok((_c, p1)) => match i32_at(s, p1) {
                Err(message) => Err(message),
                Ok((_kind, p2)) => Ok(((), p2)),
            },
        }
}

/// A tree island: a name and a counted list of coordinates with kinds, set
/// aside.
pub open spec fn tree_item() -> spec_fn(Seq<u8>, int) -> Step<()> {
    |s: Seq<u8>, pos: int|
        match string_at(s, pos) {
            Err(message) => Err(message),
            Ok((_name, p1)) => match counted_at(s, p1, "tree coordinate count"@, tree_entry_item()) {
                Err(message) => Err(message),
                Ok((_entries, p2)) => Ok(((), p2)),
            },
        }
}

pub open spec fn state_item() -> spec_fn(Seq<u8>, int) -> Step<(Seq<char>, Seq<char>)> {
    |s: Seq<u8>, pos: int|
        match string_at(s, pos) {
            Err(message) => Err(message),
            Ok((name, p1)) => match string_at(s, p1) {
                Err(message) => Err(message),
                Ok((source, p2)) => Ok(((name, source), p2)),
            },
        }
}


/// The exec result viewed through `f`, errors as their text.
pub open spec fn res_view<X, V>(r: Result<X, String>, f: spec_fn(X) -> V) -> Result<V, Seq<char>> {
    match r {
        Ok(x) => Ok(f(x)),
        Err(message) => Err(message@),
    }
}

/// A result agrees with a read of the stream that ended at `end`.
pub open spec fn agrees<V>(r: Result<V, Seq<char>>, step: Step<V>, end: int) -> bool {
    match step {
        Ok((v, next)) => r == Ok::<V, Seq<char>>(v) && end == next,
        Err(message) => r == Err::<V, Seq<char>>(message),
    }
}

pub open spec fn string_views(v: Seq<String>) -> Seq<Seq<char>> {
    v.map_values(|x: String| x@)
}

pub open spec fn named_coords(v: Seq<(String, Coord)>) -> Seq<(Seq<char>, Coord)> {
    v.map_values(|p: (String, Coord)| (p.0@, p.1))
}

pub open spec fn named_positions(v: Seq<(String, Vec<PositionedDirection>)>) -> Seq<(Seq<char>, Seq<PositionedDirection>)> {
    v.map_values(|p: (String, Vec<PositionedDirection>)| (p.0@, p.1@))
}

pub open spec fn named_players(v: Seq<(String, PositionedDirection)>) -> Seq<(Seq<char>, PositionedDirection)> {
    v.map_values(|p: (String, PositionedDirection)| (p.0@, p.1))
}

pub open spec fn named_texts(v: Seq<(String, String)>) -> Seq<(Seq<char>, Seq<char>)> {
    v.map_values(|p: (String, String)| (p.0@, p.1@))
}

/// A temple: its name and the ids of its levels.
#[derive(Clone, Debug, PartialEq, Eq)]
pub struct Temple {
    pub name: String,
    pub levels: Vec<String>,
}

pub open spec fn temple_views(v: Seq<Temple>) -> Seq<(Seq<char>, Seq<Seq<char>>)> {
    v.map_values(|t: Temple| (t.name@, string_views(t.levels@)))
}

/// The solid cells of an island, as values over a width × height × depth
/// box placed at `offset`.
#[derive(Clone, Debug, PartialEq, Eq)]
pub struct IslandMask {
    pub dimensions: [usize; 3],
    pub cells: Vec<i32>,
    pub offset: Coord,
}

pub open spec fn mask_view(m: IslandMask) -> MaskView {
    (m.dimensions@, m.cells@, m.offset)
}

pub open spec fn named_masks(v: Seq<(String, IslandMask)>) -> Seq<(Seq<char>, MaskView)> {
    v.map_values(|p: (String, IslandMask)| (p.0@, mask_view(p.1)))
}

/// Which cells of one island's projection another island may share.
#[derive(Clone, Debug, PartialEq, Eq)]
pub struct ProjectionCompatibility {
    pub dimensions: [usize; 2],
    pub cells: Vec<bool>,
}

pub open spec fn named_projections(v: Seq<(String, ProjectionCompatibility)>) -> Seq<(Seq<char>, ProjectionView)> {
    v.map_values(|p: (String, ProjectionCompatibility)| (p.0@, (p.1.dimensions@, p.1.cells@)))
}

pub open spec fn nested_projections(v: Seq<(String, Vec<(String, ProjectionCompatibility)>)>) -> Seq<(Seq<char>, Seq<(Seq<char>, ProjectionView)>)> {
    v.map_values(|p: (String, Vec<(String, ProjectionCompatibility)>)| (p.0@, named_projections(p.1@)))
}

impl<'a> BinaryReader<'a> {
    /// The islands with their offsets.
    pub fn islands(&mut self) -> (r: Result<Vec<(String, Coord)>, String>)
        requires
            old(self).offset <= old(self).data@.len(),
        ensures
            final(self).data@ == old(self).data@,
            final(self).offset <= final(self).data@.len(),
            agrees(
                res_view(r, |v: Vec<(String, Coord)>| named_coords(v@)),
                counted_at(old(self).data@, old(self).offset as int, "island count"@, island_item()),
                final(self).offset as int,
            ),
    {
        let ghost s = self.data@;
        let count = match self.count("island count") {
            Ok(c) => c,
            Err(message) => {
                return Err(message);
            },
        };
        let ghost start = self.offset as int;
        let mut out: Vec<(String, Coord)> = Vec::new();
        let mut i: usize = 0;
        while i < count
            invariant
                self.data@ == s,
                s == old(self).data@,
                count_at(s, old(self).offset as int, "island count"@) == Ok::<(usize, int), Seq<char>>((count, start)),
                self.offset <= s.len(),
                i <= count,
                repeat_at(s, start, count as nat, island_item()) == after_items(
                    named_coords(out@),
                    repeat_at(s, self.offset as int, (count - i) as nat, island_item()),
                ),
            decreases count - i,
        {
            let ghost before = self.offset as int;
            let name = match self.string() {
                Ok(n) => n,
                Err(message) => {
                    proof {
                        lemma_repeat_error(s, before, (count - i) as nat, island_item(), named_coords(out@), message@);
                    }
                    return Err(message);
                },
            };
            let c = match self.coord() {
                Ok(c) => c,
                Err(message) => {
                    proof {
                        lemma_repeat_error(s, before, (count - i) as nat, island_item(), named_coords(out@), message@);
                    }
                    return Err(message);
                },
            };
            proof {
                lemma_repeat_step(s, before, (count - i) as nat, island_item(), named_coords(out@), (name@, c), self.offset as int);
            }
            let ghost prior = named_coords(out@);
            out.push((name, c));
            assert(named_coords(out@) =~= prior.push((out@.last().0@, c)));
            i += 1;
        }
        proof {
            lemma_repeat_done(s, self.offset as int, island_item(), named_coords(out@));
        }
        Ok(out)
    }
}


pub open spec fn same_positions(v: Seq<PositionedDirection>) -> Seq<PositionedDirection> {
    v
}

pub open spec fn same_ints(v: Seq<i32>) -> Seq<i32> {
    v
}

impl<'a> BinaryReader<'a> {
    /// One island mask; see [`mask_item`].
    pub fn mask(&mut self) -> (r: Result<(String, IslandMask), String>)
        requires
            old(self).offset <= old(self).data@.len(),
        ensures
            final(self).data@ == old(self).data@,
            final(self).offset <= final(self).data@.len(),
            agrees(
                res_view(r, |m: (String, IslandMask)| (m.0@, mask_view(m.1))),
                (mask_item())(old(self).data@, old(self).offset as int),
                final(self).offset as int,
            ),
    {
        let name = match self.string() {
            Ok(x) => x,
            Err(message) => {
                return Err(message);
            },
        };
        let width = match self.count("island-mask width") {
            Ok(x) => x,
            Err(message) => {
                return Err(message);
            },
        };
        let height = match self.count("island-mask height") {
            Ok(x) => x,
            Err(message) => {
                return Err(message);
            },
        };
        let depth = match self.count("island-mask depth") {
            Ok(x) => x,
            Err(message) => {
                return Err(message);
            },
        };
        let area = match width.checked_mul(height) {
            Some(a) => a,
            None => {
                return Err(String::from_str("island-mask dimensions overflow"));
            },
        };
        let cell_count = match area.checked_mul(depth) {
            Some(c) => c,
            None => {
                return Err(String::from_str("island-mask dimensions overflow"));
            },
        };
        let cells = match self.i32s(cell_count) {
            Ok(x) => x,
            Err(message) => {
                return Err(message);
            },
        };
        let offset = match self.coord() {
            Ok(x) => x,
            Err(message) => {
                return Err(message);
            },
        };
        let dimensions = [width, height, depth];
        assert(dimensions@ =~= seq![width, height, depth]);
        Ok((name, IslandMask { dimensions, cells, offset }))
    }

    /// One projection table; see [`projection_inner_item`].
    pub fn projection(&mut self) -> (r: Result<(String, ProjectionCompatibility), String>)
        requires
            old(self).offset <= old(self).data@.len(),
        ensures
            final(self).data@ == old(self).data@,
            final(self).offset <= final(self).data@.len(),
            agrees(
                res_view(r, |m: (String, ProjectionCompatibility)| (m.0@, (m.1.dimensions@, m.1.cells@))),
                (projection_inner_item())(old(self).data@, old(self).offset as int),
                final(self).offset as int,
            ),
    {
        let name = match self.string() {
            Ok(x) => x,
            Err(message) => {
                return Err(message);
            },
        };
        let width = match self.count("projection width") {
            Ok(x) => x,
            Err(message) => {
                return Err(message);
            },
        };
        let height = match self.count("projection height") {
            Ok(x) => x,
            Err(message) => {
                return Err(message);
            },
        };
        let cell_count = match width.checked_mul(height) {
            Some(c) => c,
            None => {
                return Err(String::from_str("projection dimensions overflow"));
            },
        };
        let raw = match self.bytes(cell_count) {
            Ok(x) => x,
            Err(message) => {
                return Err(message);
            },
        };
        let mut cells: Vec<bool> = Vec::new();
        let mut i: usize = 0;
        while i < raw.len()
            invariant
                i <= raw@.len(),
                cells@ == raw@.take(i as int).map_values(|c: u8| c != 0),
            decreases raw@.len() - i,
        {
            cells.push(raw[i] != 0);
            assert(cells@ =~= raw@.take(i + 1).map_values(|c: u8| c != 0));
            i += 1;
        }
        assert(raw@.take(i as int) =~= raw@);
        let dimensions = [width, height];
        assert(dimensions@ =~= seq![width, height]);
        Ok((name, ProjectionCompatibility { dimensions, cells }))
    }

    /// An island's sausage start positions.
    pub fn positions(&mut self) -> (r: Result<Vec<PositionedDirection>, String>)
        requires
            old(self).offset <= old(self).data@.len(),
        ensures
            final(self).data@ == old(self).data@,
            final(self).offset <= final(self).data@.len(),
            agrees(res_view(r, |v: Vec<PositionedDirection>| same_positions(v@)), counted_at(old(self).data@, old(self).offset as int, "sausage-position count"@, positioned_item()), final(self).offset as int),
    {
        let ghost s = self.data@;
        let count = match self.count("sausage-position count") {
            Ok(c) => c,
            Err(message) => {
                return Err(message);
            },
        };
        let ghost start = self.offset as int;
        let mut out: Vec<PositionedDirection> = Vec::new();
        let mut i: usize = 0;
        while i < count
            invariant
                self.data@ == s,
                s == old(self).data@,
                count_at(s, old(self).offset as int, "sausage-position count"@) == Ok::<(usize, int), Seq<char>>((count, start)),
                self.offset <= s.len(),
                i <= count,
                repeat_at(s, start, count as nat, positioned_item()) == after_items(same_positions(out@), repeat_at(s, self.offset as int, (count - i) as nat, positioned_item())),
            decreases count - i,
        {
            let ghost before = self.offset as int;
            let p = match self.positioned() {
                Ok(x) => x,
                Err(message) => {
                    proof {
                        lemma_repeat_error(s, before, (count - i) as nat, positioned_item(), same_positions(out@), message@);
                    }
                    return Err(message);
                },
            };
            proof {
                lemma_repeat_step(s, before, (count - i) as nat, positioned_item(), same_positions(out@), p, self.offset as int);
            }
            let ghost prior = same_positions(out@);
            let ghost item_view = p;
            out.push(p);
            assert(same_positions(out@) =~= prior.push(item_view));
            i += 1;
        }
        proof {
            lemma_repeat_done(s, self.offset as int, positioned_item(), same_positions(out@));
        }
        Ok(out)
    }

    /// The sausage start positions of every island.
    pub fn sausage_sections(&mut self) -> (r: Result<Vec<(String, Vec<PositionedDirection>)>, String>)
        requires
            old(self).offset <= old(self).data@.len(),
        ensures
            final(self).data@ == old(self).data@,
            final(self).offset <= final(self).data@.len(),
            agrees(res_view(r, |v: Vec<(String, Vec<PositionedDirection>)>| named_positions(v@)), counted_at(old(self).data@, old(self).offset as int, "sausage-position island count"@, sausage_item()), final(self).offset as int),
    {
        let ghost s = self.data@;
        let count = match self.count("sausage-position island count") {
            Ok(c) => c,
            Err(message) => {
                return Err(message);
            },
        };
        let ghost start = self.offset as int;
        let mut out: Vec<(String, Vec<PositionedDirection>)> = Vec::new();
        let mut i: usize = 0;
        while i < count
            invariant
                self.data@ == s,
                s == old(self).data@,
                count_at(s, old(self).offset as int, "sausage-position island count"@) == Ok::<(usize, int), Seq<char>>((count, start)),
                self.offset <= s.len(),
                i <= count,
                repeat_at(s, start, count as nat, sausage_item()) == after_items(named_positions(out@), repeat_at(s, self.offset as int, (count - i) as nat, sausage_item())),
            decreases count - i,
        {
            let ghost before = self.offset as int;
            let name = match self.string() {
                Ok(x) => x,
                Err(message) => {
                    proof {
                        lemma_repeat_error(s, before, (count - i) as nat, sausage_item(), named_positions(out@), message@);
                    }
                    return Err(message);
                },
            };
            let positions = match self.positions() {
                Ok(x) => x,
                Err(message) => {
                    proof {
                        lemma_repeat_error(s, before, (count - i) as nat, sausage_item(), named_positions(out@), message@);
                    }
                    return Err(message);
                },
            };
            proof {
                lemma_repeat_step(s, before, (count - i) as nat, sausage_item(), named_positions(out@), (name@, positions@), self.offset as int);
            }
            let ghost prior = named_positions(out@);
            let ghost item_view = (name@, positions@);
            out.push((name, positions));
            assert(named_positions(out@) =~= prior.push(item_view));
            i += 1;
        }
        proof {
            lemma_repeat_done(s, self.offset as int, sausage_item(), named_positions(out@));
        }
        Ok(out)
    }

    /// The player start position of every puzzle.
    pub fn players(&mut self) -> (r: Result<Vec<(String, PositionedDirection)>, String>)
        requires
            old(self).offset <= old(self).data@.len(),
        ensures
            final(self).data@ == old(self).data@,
            final(self).offset <= final(self).data@.len(),
            agrees(res_view(r, |v: Vec<(String, PositionedDirection)>| named_players(v@)), counted_at(old(self).data@, old(self).offset as int, "player-position count"@, player_item()), final(self).offset as int),
    {
        let ghost s = self.data@;
        let count = match self.count("player-position count") {
            Ok(c) => c,
            Err(message) => {
                return Err(message);
            },
        };
        let ghost start = self.offset as int;
        let mut out: Vec<(String, PositionedDirection)> = Vec::new();
        let mut i: usize = 0;
        while i < count
            invariant
                self.data@ == s,
                s == old(self).data@,
                count_at(s, old(self).offset as int, "player-position count"@) == Ok::<(usize, int), Seq<char>>((count, start)),
                self.offset <= s.len(),
                i <= count,
                repeat_at(s, start, count as nat, player_item()) == after_items(named_players(out@), repeat_at(s, self.offset as int, (count - i) as nat, player_item())),
            decreases count - i,
        {
            let ghost before = self.offset as int;
            let name = match self.string() {
                Ok(x) => x,
                Err(message) => {
                    proof {
                        lemma_repeat_error(s, before, (count - i) as nat, player_item(), named_players(out@), message@);
                    }
                    return Err(message);
                },
            };
            let p = match self.positioned() {
                Ok(x) => x,
                Err(message) => {
                    proof {
                        lemma_repeat_error(s, before, (count - i) as nat, player_item(), named_players(out@), message@);
                    }
                    return Err(message);
                },
            };
            proof {
                lemma_repeat_step(s, before, (count - i) as nat, player_item(), named_players(out@), (name@, p), self.offset as int);
            }
            let ghost prior = named_players(out@);
            let ghost item_view = (name@, p);
            out.push((name, p));
            assert(named_players(out@) =~= prior.push(item_view));
            i += 1;
        }
        proof {
            lemma_repeat_done(s, self.offset as int, player_item(), named_players(out@));
        }
        Ok(out)
    }

    /// A temple's levels.
    pub fn level_names(&mut self) -> (r: Result<Vec<String>, String>)
        requires
            old(self).offset <= old(self).data@.len(),
        ensures
            final(self).data@ == old(self).data@,
            final(self).offset <= final(self).data@.len(),
            agrees(res_view(r, |v: Vec<String>| string_views(v@)), counted_at(old(self).data@, old(self).offset as int, "temple level count"@, string_item()), final(self).offset as int),
    {
        let ghost s = self.data@;
        let count = match self.count("temple level count") {
            Ok(c) => c,
            Err(message) => {
                return Err(message);
            },
        };
        let ghost start = self.offset as int;
        let mut out: Vec<String> = Vec::new();
        let mut i: usize = 0;
        while i < count
            invariant
                self.data@ == s,
                s == old(self).data@,
                count_at(s, old(self).offset as int, "temple level count"@) == Ok::<(usize, int), Seq<char>>((count, start)),
                self.offset <= s.len(),
                i <= count,
                repeat_at(s, start, count as nat, string_item()) == after_items(string_views(out@), repeat_at(s, self.offset as int, (count - i) as nat, string_item())),
            decreases count - i,
        {
            let ghost before = self.offset as int;
            let name = match self.string() {
                Ok(x) => x,
                Err(message) => {
                    proof {
                        lemma_repeat_error(s, before, (count - i) as nat, string_item(), string_views(out@), message@);
                    }
                    return Err(message);
                },
            };
            proof {
                lemma_repeat_step(s, before, (count - i) as nat, string_item(), string_views(out@), name@, self.offset as int);
            }
            let ghost prior = string_views(out@);
            let ghost item_view = name@;
            out.push(name);
            assert(string_views(out@) =~= prior.push(item_view));
            i += 1;
        }
        proof {
            lemma_repeat_done(s, self.offset as int, string_item(), string_views(out@));
        }
        Ok(out)
    }

    /// The temples.
    pub fn temples(&mut self) -> (r: Result<Vec<Temple>, String>)
        requires
            old(self).offset <= old(self).data@.len(),
        ensures
            final(self).data@ == old(self).data@,
            final(self).offset <= final(self).data@.len(),
            agrees(res_view(r, |v: Vec<Temple>| temple_views(v@)), counted_at(old(self).data@, old(self).offset as int, "temple count"@, temple_item()), final(self).offset as int),
    {
        let ghost s = self.data@;
        let count = match self.count("temple count") {
            Ok(c) => c,
            Err(message) => {
                return Err(message);
            },
        };
        let ghost start = self.offset as int;
        let mut out: Vec<Temple> = Vec::new();
        let mut i: usize = 0;
        while i < count
            invariant
                self.data@ == s,
                s == old(self).data@,
                count_at(s, old(self).offset as int, "temple count"@) == Ok::<(usize, int), Seq<char>>((count, start)),
                self.offset <= s.len(),
                i <= count,
                repeat_at(s, start, count as nat, temple_item()) == after_items(temple_views(out@), repeat_at(s, self.offset as int, (count - i) as nat, temple_item())),
            decreases count - i,
        {
            let ghost before = self.offset as int;
            let name = match self.string() {
                Ok(x) => x,
                Err(message) => {
                    proof {
                        lemma_repeat_error(s, before, (count - i) as nat, temple_item(), temple_views(out@), message@);
                    }
                    return Err(message);
                },
            };
            let levels = match self.level_names() {
                Ok(x) => x,
                Err(message) => {
                    proof {
                        lemma_repeat_error(s, before, (count - i) as nat, temple_item(), temple_views(out@), message@);
                    }
                    return Err(message);
                },
            };
            proof {
                lemma_repeat_step(s, before, (count - i) as nat, temple_item(), temple_views(out@), (name@, string_views(levels@)), self.offset as int);
            }
            let ghost prior = temple_views(out@);
            let ghost item_view = (name@, string_views(levels@));
            out.push(Temple { name, levels });
            assert(temple_views(out@) =~= prior.push(item_view));
            i += 1;
        }
        proof {
            lemma_repeat_done(s, self.offset as int, temple_item(), temple_views(out@));
        }
        Ok(out)
    }

    /// `n` little-endian `i32` values.
    pub fn i32s(&mut self, n: usize) -> (r: Result<Vec<i32>, String>)
        requires
            old(self).offset <= old(self).data@.len(),
        ensures
            final(self).data@ == old(self).data@,
            final(self).offset <= final(self).data@.len(),
            agrees(res_view(r, |v: Vec<i32>| same_ints(v@)), repeat_at(old(self).data@, old(self).offset as int, n as nat, i32_item()), final(self).offset as int),
    {
        let ghost s = self.data@;
        let count = n;
        let ghost start = self.offset as int;
        let mut out: Vec<i32> = Vec::new();
        let mut i: usize = 0;
        while i < count
            invariant
                self.data@ == s,
                s == old(self).data@,
                count == n,
                start == old(self).offset,
                self.offset <= s.len(),
                i <= count,
                repeat_at(s, start, count as nat, i32_item()) == after_items(same_ints(out@), repeat_at(s, self.offset as int, (count - i) as nat, i32_item())),
            decreases count - i,
        {
            let ghost before = self.offset as int;
            let v = match self.i32() {
                Ok(x) => x,
                Err(message) => {
                    proof {
                        lemma_repeat_error(s, before, (count - i) as nat, i32_item(), same_ints(out@), message@);
                    }
                    return Err(message);
                },
            };
            proof {
                lemma_repeat_step(s, before, (count - i) as nat, i32_item(), same_ints(out@), v, self.offset as int);
            }
            let ghost prior = same_ints(out@);
            let ghost item_view = v;
            out.push(v);
            assert(same_ints(out@) =~= prior.push(item_view));
            i += 1;
        }
        proof {
            lemma_repeat_done(s, self.offset as int, i32_item(), same_ints(out@));
        }
        Ok(out)
    }

    /// The island masks.
    pub fn masks(&mut self) -> (r: Result<Vec<(String, IslandMask)>, String>)
        requires
            old(self).offset <= old(self).data@.len(),
        ensures
            final(self).data@ == old(self).data@,
            final(self).offset <= final(self).data@.len(),
            agrees(res_view(r, |v: Vec<(String, IslandMask)>| named_masks(v@)), counted_at(old(self).data@, old(self).offset as int, "island-mask count"@, mask_item()), final(self).offset as int),
    {
        let ghost s = self.data@;
        let count = match self.count("island-mask count") {
            Ok(c) => c,
            Err(message) => {
                return Err(message);
            },
        };
        let ghost start = self.offset as int;
        let mut out: Vec<(String, IslandMask)> = Vec::new();
        let mut i: usize = 0;
        while i < count
            invariant
                self.data@ == s,
                s == old(self).data@,
                count_at(s, old(self).offset as int, "island-mask count"@) == Ok::<(usize, int), Seq<char>>((count, start)),
                self.offset <= s.len(),
                i <= count,
                repeat_at(s, start, count as nat, mask_item()) == after_items(named_masks(out@), repeat_at(s, self.offset as int, (count - i) as nat, mask_item())),
            decreases count - i,
        {
            let ghost before = self.offset as int;
            let m = match self.mask() {
                Ok(x) => x,
                Err(message) => {
                    proof {
                        lemma_repeat_error(s, before, (count - i) as nat, mask_item(), named_masks(out@), message@);
                    }
                    return Err(message);
                },
            };
            proof {
                lemma_repeat_step(s, before, (count - i) as nat, mask_item(), named_masks(out@), (m.0@, mask_view(m.1)), self.offset as int);
            }
            let ghost prior = named_masks(out@);
            let ghost item_view = (m.0@, mask_view(m.1));
            out.push(m);
            assert(named_masks(out@) =~= prior.push(item_view));
            i += 1;
        }
        proof {
            lemma_repeat_done(s, self.offset as int, mask_item(), named_masks(out@));
        }
        Ok(out)
    }

    /// One island's projection tables.
    pub fn projection_inner(&mut self) -> (r: Result<Vec<(String, ProjectionCompatibility)>, String>)
        requires
            old(self).offset <= old(self).data@.len(),
        ensures
            final(self).data@ == old(self).data@,
            final(self).offset <= final(self).data@.len(),
            agrees(res_view(r, |v: Vec<(String, ProjectionCompatibility)>| named_projections(v@)), counted_at(old(self).data@, old(self).offset as int, "projection inner count"@, projection_inner_item()), final(self).offset as int),
    {
        let ghost s = self.data@;
        let count = match self.count("projection inner count") {
            Ok(c) => c,
            Err(message) => {
                return Err(message);
            },
        };
        let ghost start = self.offset as int;
        let mut out: Vec<(String, ProjectionCompatibility)> = Vec::new();
        let mut i: usize = 0;
        while i < count
            invariant
                self.data@ == s,
                s == old(self).data@,
                count_at(s, old(self).offset as int, "projection inner count"@) == Ok::<(usize, int), Seq<char>>((count, start)),
                self.offset <= s.len(),
                i <= count,
                repeat_at(s, start, count as nat, projection_inner_item()) == after_items(named_projections(out@), repeat_at(s, self.offset as int, (count - i) as nat, projection_inner_item())),
            decreases count - i,
        {
            let ghost before = self.offset as int;
            let m = match self.projection() {
                Ok(x) => x,
                Err(message) => {
                    proof {
                        lemma_repeat_error(s, before, (count - i) as nat, projection_inner_item(), named_projections(out@), message@);
                    }
                    return Err(message);
                },
            };
            proof {
                lemma_repeat_step(s, before, (count - i) as nat, projection_inner_item(), named_projections(out@), (m.0@, (m.1.dimensions@, m.1.cells@)), self.offset as int);
            }
            let ghost prior = named_projections(out@);
            let ghost item_view = (m.0@, (m.1.dimensions@, m.1.cells@));
            out.push(m);
            assert(named_projections(out@) =~= prior.push(item_view));
            i += 1;
        }
        proof {
            lemma_repeat_done(s, self.offset as int, projection_inner_item(), named_projections(out@));
        }
        Ok(out)
    }

    /// The projection tables of every island.
    pub fn projections(&mut self) -> (r: Result<Vec<(String, Vec<(String, ProjectionCompatibility)>)>, String>)
        requires
            old(self).offset <= old(self).data@.len(),
        ensures
            final(self).data@ == old(self).data@,
            final(self).offset <= final(self).data@.len(),
            agrees(res_view(r, |v: Vec<(String, Vec<(String, ProjectionCompatibility)>)>| nested_projections(v@)), counted_at(old(self).data@, old(self).offset as int, "projection outer count"@, projection_item()), final(self).offset as int),
    {
        let ghost s = self.data@;
        let count = match self.count("projection outer count") {
            Ok(c) => c,
            Err(message) => {
                return Err(message);
            },
        };
        let ghost start = self.offset as int;
        let mut out: Vec<(String, Vec<(String, ProjectionCompatibility)>)> = Vec::new();
        let mut i: usize = 0;
        while i < count
            invariant
                self.data@ == s,
                s == old(self).data@,
                count_at(s, old(self).offset as int, "projection outer count"@) == Ok::<(usize, int), Seq<char>>((count, start)),
                self.offset <= s.len(),
                i <= count,
                repeat_at(s, start, count as nat, projection_item()) == after_items(nested_projections(out@), repeat_at(s, self.offset as int, (count - i) as nat, projection_item())),
            decreases count - i,
        {
            let ghost before = self.offset as int;
            let name = match self.string() {
                Ok(x) => x,
                Err(message) => {
                    proof {
                        lemma_repeat_error(s, before, (count - i) as nat, projection_item(), nested_projections(out@), message@);
                    }
                    return Err(message);
                },
            };
            let inner = match self.projection_inner() {
                Ok(x) => x,
                Err(message) => {
                    proof {
                        lemma_repeat_error(s, before, (count - i) as nat, projection_item(), nested_projections(out@), message@);
                    }
                    return Err(message);
                },
            };
            proof {
                lemma_repeat_step(s, before, (count - i) as nat, projection_item(), nested_projections(out@), (name@, named_projections(inner@)), self.offset as int);
            }
            let ghost prior = nested_projections(out@);
            let ghost item_view = (name@, named_projections(inner@));
            out.push((name, inner));
            assert(nested_projections(out@) =~= prior.push(item_view));
            i += 1;
        }
        proof {
            lemma_repeat_done(s, self.offset as int, projection_item(), nested_projections(out@));
        }
        Ok(out)
    }

    /// The state string the game wrote for every island.
    pub fn states(&mut self) -> (r: Result<Vec<(String, String)>, String>)
        requires
            old(self).offset <= old(self).data@.len(),
        ensures
            final(self).data@ == old(self).data@,
            final(self).offset <= final(self).data@.len(),
            agrees(res_view(r, |v: Vec<(String, String)>| named_texts(v@)), counted_at(old(self).data@, old(self).offset as int, "island state count"@, state_item()), final(self).offset as int),
    {
        let ghost s = self.data@;
        let count = match self.count("island state count") {
            Ok(c) => c,
            Err(message) => {
                return Err(message);
            },
        };
        let ghost start = self.offset as int;
        let mut out: Vec<(String, String)> = Vec::new();
        let mut i: usize = 0;
        while i < count
            invariant
                self.data@ == s,
                s == old(self).data@,
                count_at(s, old(self).offset as int, "island state count"@) == Ok::<(usize, int), Seq<char>>((count, start)),
                self.offset <= s.len(),
                i <= count,
                repeat_at(s, start, count as nat, state_item()) == after_items(named_texts(out@), repeat_at(s, self.offset as int, (count - i) as nat, state_item())),
            decreases count - i,
        {
            let ghost before = self.offset as int;
            let name = match self.string() {
                Ok(x) => x,
                Err(message) => {
                    proof {
                        lemma_repeat_error(s, before, (count - i) as nat, state_item(), named_texts(out@), message@);
                    }
                    return Err(message);
                },
            };
            let source = match self.string() {
                Ok(x) => x,
                Err(message) => {
                    proof {
                        lemma_repeat_error(s, before, (count - i) as nat, state_item(), named_texts(out@), message@);
                    }
                    return Err(message);
                },
            };
            proof {
                lemma_repeat_step(s, before, (count - i) as nat, state_item(), named_texts(out@), (name@, source@), self.offset as int);
            }
            let ghost prior = named_texts(out@);
            let ghost item_view = (name@, source@);
            out.push((name, source));
            assert(named_texts(out@) =~= prior.push(item_view));
            i += 1;
        }
        proof {
            lemma_repeat_done(s, self.offset as int, state_item(), named_texts(out@));
        }
        Ok(out)
    }

    /// Reads a counted list of coordinates and sets it aside.
    pub fn skip_coords(&mut self, label: &str) -> (r: Result<(), String>)
        requires
            old(self).offset <= old(self).data@.len(),
        ensures
            final(self).data@ == old(self).data@,
            final(self).offset <= final(self).data@.len(),
            match counted_at(old(self).data@, old(self).offset as int, label@, coord_skip_item()) {
                Ok((_, next)) => r is Ok && final(self).offset == next,
                Err(message) => r is Err && r->Err_0@ == message,
            },
    {
        let ghost s = self.data@;
        let count = match self.count(label) {
            Ok(c) => c,
            Err(message) => {
                return Err(message);
            },
        };
        let ghost start = self.offset as int;
        let ghost mut done: Seq<_> = Seq::empty();
        let mut i: usize = 0;
        while i < count
            invariant
                self.data@ == s,
                s == old(self).data@,
                count_at(s, old(self).offset as int, label@) == Ok::<(usize, int), Seq<char>>((count, start)),
                self.offset <= s.len(),
                i <= count,
                repeat_at(s, start, count as nat, coord_skip_item()) == after_items(done, repeat_at(s, self.offset as int, (count - i) as nat, coord_skip_item())),
            decreases count - i,
        {
            let ghost before = self.offset as int;
            let _c = match self.coord() {
                Ok(x) => x,
                Err(message) => {
                    proof {
                        lemma_repeat_error(s, before, (count - i) as nat, coord_skip_item(), done, message@);
                    }
                    return Err(message);
                },
            };
            proof {
                lemma_repeat_step(s, before, (count - i) as nat, coord_skip_item(), done, (), self.offset as int);
            }
            proof {
                done = done.push(());
            }
            i += 1;
        }
        proof {
            lemma_repeat_done(s, self.offset as int, coord_skip_item(), done);
        }
        Ok(())
    }

    /// Reads the counted groups of a coordinate map and sets them aside.
    pub fn skip_groups(&mut self, group_label: &str, coord_label: &str) -> (r: Result<(), String>)
        requires
            old(self).offset <= old(self).data@.len(),
        ensures
            final(self).data@ == old(self).data@,
            final(self).offset <= final(self).data@.len(),
            match counted_at(old(self).data@, old(self).offset as int, group_label@, coord_group_item(coord_label@)) {
                Ok((_, next)) => r is Ok && final(self).offset == next,
                Err(message) => r is Err && r->Err_0@ == message,
            },
    {
        let ghost s = self.data@;
        let count = match self.count(group_label) {
            Ok(c) => c,
            Err(message) => {
                return Err(message);
            },
        };
        let ghost start = self.offset as int;
        let ghost mut done: Seq<_> = Seq::empty();
        let mut i: usize = 0;
        while i < count
            invariant
                self.data@ == s,
                s == old(self).data@,
                count_at(s, old(self).offset as int, group_label@) == Ok::<(usize, int), Seq<char>>((count, start)),
                self.offset <= s.len(),
                i <= count,
                repeat_at(s, start, count as nat, coord_group_item(coord_label@)) == after_items(done, repeat_at(s, self.offset as int, (count - i) as nat, coord_group_item(coord_label@))),
            decreases count - i,
        {
            let ghost before = self.offset as int;
            let _k = match self.i32() {
                Ok(x) => x,
                Err(message) => {
                    proof {
                        lemma_repeat_error(s, before, (count - i) as nat, coord_group_item(coord_label@), done, message@);
                    }
                    return Err(message);
                },
            };
            let _c = match self.skip_coords(coord_label) {
                Ok(x) => x,
                Err(message) => {
                    proof {
                        lemma_repeat_error(s, before, (count - i) as nat, coord_group_item(coord_label@), done, message@);
                    }
                    return Err(message);
                },
            };
            proof {
                lemma_repeat_step(s, before, (count - i) as nat, coord_group_item(coord_label@), done, (), self.offset as int);
            }
            proof {
                done = done.push(());
            }
            i += 1;
        }
        proof {
            lemma_repeat_done(s, self.offset as int, coord_group_item(coord_label@), done);
        }
        Ok(())
    }

    /// Reads a counted list of coordinate maps and sets it aside.
    pub fn skip_coord_maps(&mut self, island_label: &str, group_label: &str, coord_label: &str) -> (r: Result<(), String>)
        requires
            old(self).offset <= old(self).data@.len(),
        ensures
            final(self).data@ == old(self).data@,
            final(self).offset <= final(self).data@.len(),
            match counted_at(old(self).data@, old(self).offset as int, island_label@, coord_map_item(group_label@, coord_label@)) {
                Ok((_, next)) => r is Ok && final(self).offset == next,
                Err(message) => r is Err && r->Err_0@ == message,
            },
    {
        let ghost s = self.data@;
        let count = match self.count(island_label) {
            Ok(c) => c,
            Err(message) => {
                return Err(message);
            },
        };
        let ghost start = self.offset as int;
        let ghost mut done: Seq<_> = Seq::empty();
        let mut i: usize = 0;
        while i < count
            invariant
                self.data@ == s,
                s == old(self).data@,
                count_at(s, old(self).offset as int, island_label@) == Ok::<(usize, int), Seq<char>>((count, start)),
                self.offset <= s.len(),
                i <= count,
                repeat_at(s, start, count as nat, coord_map_item(group_label@, coord_label@)) == after_items(done, repeat_at(s, self.offset as int, (count - i) as nat, coord_map_item(group_label@, coord_label@))),
            decreases count - i,
        {
            let ghost before = self.offset as int;
            let _n = match self.string() {
                Ok(x) => x,
                Err(message) => {
                    proof {
                        lemma_repeat_error(s, before, (count - i) as nat, coord_map_item(group_label@, coord_label@), done, message@);
                    }
                    return Err(message);
                },
            };
            let _g = match self.skip_groups(group_label, coord_label) {
                Ok(x) => x,
                Err(message) => {
                    proof {
                        lemma_repeat_error(s, before, (count - i) as nat, coord_map_item(group_label@, coord_label@), done, message@);
                    }
                    return Err(message);
                },
            };
            proof {
                lemma_repeat_step(s, before, (count - i) as nat, coord_map_item(group_label@, coord_label@), done, (), self.offset as int);
            }
            proof {
                done = done.push(());
            }
            i += 1;
        }
        proof {
            lemma_repeat_done(s, self.offset as int, coord_map_item(group_label@, coord_label@), done);
        }
        Ok(())
    }

    /// Reads the barbecue positions and sets them aside.
    pub fn skip_bbqs(&mut self) -> (r: Result<(), String>)
        requires
            old(self).offset <= old(self).data@.len(),
        ensures
            final(self).data@ == old(self).data@,
            final(self).offset <= final(self).data@.len(),
            match counted_at(old(self).data@, old(self).offset as int, "bbq island count"@, bbq_item()) {
                Ok((_, next)) => r is Ok && final(self).offset == next,
                Err(message) => r is Err && r->Err_0@ == message,
            },
    {
        let ghost s = self.data@;
        let count = match self.count("bbq island count") {
            Ok(c) => c,
            Err(message) => {
                return Err(message);
            },
        };
        let ghost start = self.offset as int;
        let ghost mut done: Seq<_> = Seq::empty();
        let mut i: usize = 0;
        while i < count
            invariant
                self.data@ == s,
                s == old(self).data@,
                count_at(s, old(self).offset as int, "bbq island count"@) == Ok::<(usize, int), Seq<char>>((count, start)),
                self.offset <= s.len(),
                i <= count,
                repeat_at(s, start, count as nat, bbq_item()) == after_items(done, repeat_at(s, self.offset as int, (count - i) as nat, bbq_item())),
            decreases count - i,
        {
            let ghost before = self.offset as int;
            let _n = match self.string() {
                Ok(x) => x,
                Err(message) => {
                    proof {
                        lemma_repeat_error(s, before, (count - i) as nat, bbq_item(), done, message@);
                    }
                    return Err(message);
                },
            };
            let _c = match self.skip_coords("bbq coordinate count") {
                Ok(x) => x,
                Err(message) => {
                    proof {
                        lemma_repeat_error(s, before, (count - i) as nat, bbq_item(), done, message@);
                    }
                    return Err(message);
                },
            };
            proof {
                lemma_repeat_step(s, before, (count - i) as nat, bbq_item(), done, (), self.offset as int);
            }
            proof {
                done = done.push(());
            }
            i += 1;
        }
        proof {
            lemma_repeat_done(s, self.offset as int, bbq_item(), done);
        }
        Ok(())
    }

    /// Reads one island's trees and sets them aside.
    pub fn skip_tree_entries(&mut self) -> (r: Result<(), String>)
        requires
            old(self).offset <= old(self).data@.len(),
        ensures
            final(self).data@ == old(self).data@,
            final(self).offset <= final(self).data@.len(),
            match counted_at(old(self).data@, old(self).offset as int, "tree coordinate count"@, tree_entry_item()) {
                Ok((_, next)) => r is Ok && final(self).offset == next,
                Err(message) => r is Err && r->Err_0@ == message,
            },
    {
        let ghost s = self.data@;
        let count = match self.count("tree coordinate count") {
            Ok(c) => c,
            Err(message) => {
                return Err(message);
            },
        };
        let ghost start = self.offset as int;
        let ghost mut done: Seq<_> = Seq::empty();
        let mut i: usize = 0;
        while i < count
            invariant
                self.data@ == s,
                s == old(self).data@,
                count_at(s, old(self).offset as int, "tree coordinate count"@) == Ok::<(usize, int), Seq<char>>((count, start)),
                self.offset <= s.len(),
                i <= count,
                repeat_at(s, start, count as nat, tree_entry_item()) == after_items(done, repeat_at(s, self.offset as int, (count - i) as nat, tree_entry_item())),
            decreases count - i,
        {
            let ghost before = self.offset as int;
            let _c = match self.coord() {
                Ok(x) => x,
                Err(message) => {
                    proof {
                        lemma_repeat_error(s, before, (count - i) as nat, tree_entry_item(), done, message@);
                    }
                    return Err(message);
                },
            };
            let _k = match self.i32() {
                Ok(x) => x,
                Err(message) => {
                    proof {
                        lemma_repeat_error(s, before, (count - i) as nat, tree_entry_item(), done, message@);
                    }
                    return Err(message);
                },
            };
            proof {
                lemma_repeat_step(s, before, (count - i) as nat, tree_entry_item(), done, (), self.offset as int);
            }
            proof {
                done = done.push(());
            }
            i += 1;
        }
        proof {
            lemma_repeat_done(s, self.offset as int, tree_entry_item(), done);
        }
        Ok(())
    }

    /// Reads the trees of every island and sets them aside.
    pub fn skip_trees(&mut self) -> (r: Result<(), String>)
        requires
            old(self).offset <= old(self).data@.len(),
        ensures
            final(self).data@ == old(self).data@,
            final(self).offset <= final(self).data@.len(),
            match counted_at(old(self).data@, old(self).offset as int, "tree island count"@, tree_item()) {
                Ok((_, next)) => r is Ok && final(self).offset == next,
                Err(message) => r is Err && r->Err_0@ == message,
            },
    {
        let ghost s = self.data@;
        let count = match self.count("tree island count") {
            Ok(c) => c,
            Err(message) => {
                return Err(message);
            },
        };
        let ghost start = self.offset as int;
        let ghost mut done: Seq<_> = Seq::empty();
        let mut i: usize = 0;
        while i < count
            invariant
                self.data@ == s,
                s == old(self).data@,
                count_at(s, old(self).offset as int, "tree island count"@) == Ok::<(usize, int), Seq<char>>((count, start)),
                self.offset <= s.len(),
                i <= count,
                repeat_at(s, start, count as nat, tree_item()) == after_items(done, repeat_at(s, self.offset as int, (count - i) as nat, tree_item())),
            decreases count - i,
        {
            let ghost before = self.offset as int;
            let _n = match self.string() {
                Ok(x) => x,
                Err(message) => {
                    proof {
                        lemma_repeat_error(s, before, (count - i) as nat, tree_item(), done, message@);
                    }
                    return Err(message);
                },
            };
            let _t = match self.skip_tree_entries() {
                Ok(x) => x,
                Err(message) => {
                    proof {
                        lemma_repeat_error(s, before, (count - i) as nat, tree_item(), done, message@);
                    }
                    return Err(message);
                },
            };
            proof {
                lemma_repeat_step(s, before, (count - i) as nat, tree_item(), done, (), self.offset as int);
            }
            proof {
                done = done.push(());
            }
            i += 1;
        }
        proof {
            lemma_repeat_done(s, self.offset as int, tree_item(), done);
        }
        Ok(())
    }
}


/// The content of a campaign file.
pub struct CampaignView {
    pub islands: Seq<(Seq<char>, Coord)>,
    pub sausage_positions: Seq<(Seq<char>, Seq<PositionedDirection>)>,
    pub player_positions: Seq<(Seq<char>, PositionedDirection)>,
    pub temples: Seq<(Seq<char>, Seq<Seq<char>>)>,
    pub island_masks: Seq<(Seq<char>, MaskView)>,
    pub projections: Seq<(Seq<char>, Seq<(Seq<char>, ProjectionView)>)>,
    pub merged_state_source: Seq<char>,
    pub island_state_sources: Seq<(Seq<char>, Seq<char>)>,
}

/// A whole campaign file: the sections in order, the set-aside ones
/// included, and nothing after them.
pub open spec fn campaign_file(s: Seq<u8>) -> Result<CampaignView, Seq<char>> {
    match counted_at(s, 0, "island count"@, island_item()) {
        Err(m) => Err(m),
        Ok((islands, p1)) => match counted_at(s, p1, "sausage-position island count"@, sausage_item()) {
            Err(m) => Err(m),
            Ok((sausages, p2)) => match counted_at(s, p2, "player-position count"@, player_item()) {
                Err(m) => Err(m),
                Ok((players, p3)) => match counted_at(s, p3, "temple count"@, temple_item()) {
                    Err(m) => Err(m),
                    Ok((temples, p4)) => match counted_at(s, p4, "island-mask count"@, mask_item()) {
                        Err(m) => Err(m),
                        Ok((masks, p5)) => match counted_at(s, p5, "projection outer count"@, projection_item()) {
                            Err(m) => Err(m),
                            Ok((projections, p6)) => campaign_tail(s, p6, CampaignView {
                                islands,
                                sausage_positions: sausages,
                                player_positions: players,
                                temples,
                                island_masks: masks,
                                projections,
                                merged_state_source: Seq::empty(),
                                island_state_sources: Seq::empty(),
                            }),
                        },
                    },
                },
            },
        },
    }
}

/// The rest of the file from `pos`: the set-aside coast, splash, barbecue
/// and tree data, the merged state, the island states, and the end.
pub open spec fn campaign_tail(s: Seq<u8>, pos: int, head: CampaignView) -> Result<CampaignView, Seq<char>> {
    match counted_at(s, pos, "coast data island count"@, coord_map_item("coast data group count"@, "coast data coordinate count"@)) {
        Err(m) => Err(m),
        Ok((_coast, p1)) => match counted_at(s, p1, "splash data island count"@, coord_map_item("splash data group count"@, "splash data coordinate count"@)) {
            Err(m) => Err(m),
            Ok((_splash, p2)) => match counted_at(s, p2, "bbq island count"@, bbq_item()) {
                Err(m) => Err(m),
                Ok((_bbq, p3)) => match counted_at(s, p3, "tree island count"@, tree_item()) {
                    Err(m) => Err(m),
                    Ok((_trees, p4)) => match string_at(s, p4) {
                        Err(m) => Err(m),
                        Ok((merged, p5)) => match counted_at(s, p5, "island state count"@, state_item()) {
                            Err(m) => Err(m),
                            Ok((states, p6)) => if p6 < s.len() {
                                Err("trailing campaign data at byte "@ + nat_text(p6 as nat))
                            } else {
                                Ok(CampaignView {
                                    merged_state_source: merged,
                                    island_state_sources: states,
                                    ..head
                                })
                            },
                        },
                    },
                },
            },
        },
    }
}

/// The campaign: islands and their offsets, start positions, temples,
/// island masks, projection tables and the state strings the game wrote. Keyed
/// tables list their entries in file order; a later entry for a name
/// replaces an earlier one.
#[derive(Clone, Debug, PartialEq, Eq)]
pub struct Campaign {
    pub island_names: Vec<String>,
    pub offsets: Vec<(String, Coord)>,
    pub sausage_positions: Vec<(String, Vec<PositionedDirection>)>,
    pub player_positions: Vec<(String, PositionedDirection)>,
    pub temples: Vec<Temple>,
    pub island_masks: Vec<(String, IslandMask)>,
    pub projection_compatibilities: Vec<(String, Vec<(String, ProjectionCompatibility)>)>,
    pub merged_state_source: String,
    pub island_state_sources: Vec<(String, String)>,
}

impl Campaign {
    pub open spec fn view(&self) -> CampaignView {
        CampaignView {
            islands: named_coords(self.offsets@),
            sausage_positions: named_positions(self.sausage_positions@),
            player_positions: named_players(self.player_positions@),
            temples: temple_views(self.temples@),
            island_masks: named_masks(self.island_masks@),
            projections: nested_projections(self.projection_compatibilities@),
            merged_state_source: self.merged_state_source@,
            island_state_sources: named_texts(self.island_state_sources@),
        }
    }

    /// Reads a campaign file; see [`campaign_file`]. The island names are
    /// the islands' names in file order.
    pub fn read(data: &[u8]) -> (r: Result<Campaign, String>)
        ensures
            match r {
                Ok(c) => campaign_file(data@) == Ok::<CampaignView, Seq<char>>(c.view())
                    && string_views(c.island_names@) == named_coords(c.offsets@).map_values(|p: (Seq<char>, Coord)| p.0),
                Err(message) => campaign_file(data@) == Err::<CampaignView, Seq<char>>(message@),
            },
    {
        let mut reader = BinaryReader::new(data);
        let offsets = match reader.islands() {
            Ok(x) => x,
            Err(message) => {
                return Err(message);
            },
        };
        let mut island_names: Vec<String> = Vec::new();
        let mut i: usize = 0;
        while i < offsets.len()
            invariant
                i <= offsets@.len(),
                island_names@.len() == i,
                forall|j: int| 0 <= j < i ==> (#[trigger] island_names@[j])@ == offsets@[j].0@,
            decreases offsets@.len() - i,
        {
            let name = offsets[i].0.clone();
            assert(name@ == offsets@[i as int].0@);
            island_names.push(name);
            i += 1;
        }
        assert(string_views(island_names@) =~= named_coords(offsets@).map_values(|p: (Seq<char>, Coord)| p.0));
        let sausage_positions = match reader.sausage_sections() {
            Ok(x) => x,
            Err(message) => {
                return Err(message);
            },
        };
        let player_positions = match reader.players() {
            Ok(x) => x,
            Err(message) => {
                return Err(message);
            },
        };
        let temples = match reader.temples() {
            Ok(x) => x,
            Err(message) => {
                return Err(message);
            },
        };
        let island_masks = match reader.masks() {
            Ok(x) => x,
            Err(message) => {
                return Err(message);
            },
        };
        let projection_compatibilities = match reader.projections() {
            Ok(x) => x,
            Err(message) => {
                return Err(message);
            },
        };
        match reader.skip_coord_maps("coast data island count", "coast data group count", "coast data coordinate count") {
            Ok(()) => {},
            Err(message) => {
                return Err(message);
            },
        }
        match reader.skip_coord_maps("splash data island count", "splash data group count", "splash data coordinate count") {
            Ok(()) => {},
            Err(message) => {
                return Err(message);
            },
        }
        match reader.skip_bbqs() {
            Ok(()) => {},
            Err(message) => {
                return Err(message);
            },
        }
        match reader.skip_trees() {
            Ok(()) => {},
            Err(message) => {
                return Err(message);
            },
        }
        let merged_state_source = match reader.string() {
            Ok(x) => x,
            Err(message) => {
                return Err(message);
            },
        };
        let island_state_sources = match reader.states() {
            Ok(x) => x,
            Err(message) => {
                return Err(message);
            },
        };
        match reader.expect_eof() {
            Ok(()) => {},
            Err(message) => {
                return Err(message);
            },
        }
        Ok(Campaign {
            island_names,
            offsets,
            sausage_positions,
            player_positions,
            temples,
            island_masks,
            projection_compatibilities,
            merged_state_source,
            island_state_sources,
        })
    }
}


/// The value of the last entry named `key`, as a map that is filled in
/// entry order holds it.
pub open spec fn lookup<V>(entries: Seq<(Seq<char>, V)>, key: Seq<char>) -> Option<V>
    decreases entries.len(),
{
    if entries.len() == 0 {
        None
    } else if entries.last().0 == key {
        Some(entries.last().1)
    } else {
        lookup(entries.drop_last(), key)
    }
}

/// The index of the last entry named `key`.
pub open spec fn lookup_index<V>(entries: Seq<(Seq<char>, V)>, key: Seq<char>) -> Option<int>
    decreases entries.len(),
{
    if entries.len() == 0 {
        None
    } else if entries.last().0 == key {
        Some(entries.len() - 1)
    } else {
        lookup_index(entries.drop_last(), key)
    }
}

proof fn lemma_lookup_index<V>(entries: Seq<(Seq<char>, V)>, key: Seq<char>)
    ensures
        match lookup_index(entries, key) {
            Some(i) => 0 <= i < entries.len() && entries[i].0 == key && lookup(entries, key) == Some(entries[i].1),
            None => lookup(entries, key) is None,
        },
    decreases entries.len(),
{
    if entries.len() > 0 && entries.last().0 != key {
        lemma_lookup_index(entries.drop_last(), key);
    }
}

/// The state string stored for `name`, found from the last entry back.
fn state_source<'b>(entries: &'b Vec<(String, String)>, name: &str) -> (r: Option<&'b String>)
    ensures
        match r {
            Some(source) => lookup(named_texts(entries@), name@) == Some(source@),
            None => lookup(named_texts(entries@), name@) is None,
        },
{
    let mut i = entries.len();
    assert(named_texts(entries@).take(i as int) =~= named_texts(entries@));
    while i > 0
        invariant
            i <= entries@.len(),
            lookup(named_texts(entries@), name@) == lookup(named_texts(entries@).take(i as int), name@),
        decreases i,
    {
        assert(named_texts(entries@).take(i as int).drop_last() =~= named_texts(entries@).take(i - 1));
        if crate::text::str_eq(entries[i - 1].0.as_str(), name) {
            return Some(&entries[i - 1].1);
        }
        i -= 1;
    }
    None
}

/// The puzzles: every temple's levels, temple by temple.
pub open spec fn puzzle_ids_spec(temples: Seq<(Seq<char>, Seq<Seq<char>>)>) -> Seq<Seq<char>>
    decreases temples.len(),
{
    if temples.len() == 0 {
        Seq::empty()
    } else {
        puzzle_ids_spec(temples.drop_last()) + temples.last().1
    }
}

/// The display names of the puzzles' states, or the first failure: a
/// puzzle without a state, or a state that does not parse.
pub open spec fn puzzle_names_ok(c: CampaignView, ids: Seq<Seq<char>>) -> bool {
    forall|i: int|
        0 <= i < ids.len() ==> #[trigger] state_parses(c, ids[i])
}

/// A state is stored for `id` and parses.
pub open spec fn state_parses(c: CampaignView, id: Seq<char>) -> bool {
    match lookup(c.island_state_sources, id) {
        Some(source) => state_ok(source),
        None => false,
    }
}

impl IslandMask {
    /// The cell count fits in a `usize`.
    pub open spec fn fits(&self) -> bool {
        self.dimensions[0] * self.dimensions[1] * self.dimensions[2] <= usize::MAX
    }

    /// The value of the cell at a local position: cells run depth first,
    /// then height, then width. `None` outside the box or past the cells.
    pub open spec fn get_spec(&self, local: Coord) -> Option<i32> {
        let (w, h, d) = (self.dimensions[0] as int, self.dimensions[1] as int, self.dimensions[2] as int);
        if local.x < 0 || local.y < 0 || local.z < 0 || local.x >= w || local.y >= h || local.z >= d {
            None
        } else {
            let index = local.z + d * local.y + d * h * local.x;
            if index < self.cells@.len() {
                Some(self.cells@[index])
            } else {
                None
            }
        }
    }

    /// See [`IslandMask::get_spec`].
    pub fn get(&self, local: Coord) -> (r: Option<i32>)
        requires
            self.fits(),
        ensures
            r == self.get_spec(local),
    {
        if local.x < 0 || local.y < 0 || local.z < 0 {
            return None;
        }
        let width = self.dimensions[0];
        let height = self.dimensions[1];
        let depth = self.dimensions[2];
        let x = local.x as usize;
        let y = local.y as usize;
        let z = local.z as usize;
        if x >= width || y >= height || z >= depth {
            return None;
        }
        proof {
            let (w, hh, d) = (width as int, height as int, depth as int);
            assert(d * hh <= w * hh * d) by (nonlinear_arith)
                requires
                    w >= 1,
                    hh >= 0,
                    d >= 0,
            ;
            assert(z + d * y + d * hh * x <= w * hh * d - 1) by (nonlinear_arith)
                requires
                    0 <= x < w,
                    0 <= y < hh,
                    0 <= z < d,
            ;
            assert(d * y <= d * hh * x + d * y) by (nonlinear_arith)
                requires
                    0 <= x,
                    0 <= y,
                    d >= 0,
                    hh >= 0,
            ;
            assert(d * hh * x <= w * hh * d) by (nonlinear_arith)
                requires
                    0 <= x < w,
                    d >= 0,
                    hh >= 0,
            ;
        }
        let index = z + depth * y + depth * height * x;
        if index < self.cells.len() {
            Some(self.cells[index])
        } else {
            None
        }
    }
}

impl Campaign {
    /// The parsed merged state of the whole overworld.
    pub fn merged_state(&self) -> (r: Result<GameState, String>)
        ensures
            match r {
                Ok(g) => state_ok(self.merged_state_source@) && state_of(self.merged_state_source@, g),
                Err(_) => !state_ok(self.merged_state_source@),
            },
    {
        GameState::parse(self.merged_state_source.as_str())
    }

    /// The parsed state of one island.
    pub fn island_state(&self, name: &str) -> (r: Result<GameState, String>)
        ensures
            match lookup(self.view().island_state_sources, name@) {
                None => r is Err && r->Err_0@ == "unknown island \""@ + name@ + "\""@,
                Some(source) => match r {
                    Ok(g) => state_ok(source) && state_of(source, g),
                    Err(_) => !state_ok(source),
                },
            },
    {
        match state_source(&self.island_state_sources, name) {
            Some(source) => GameState::parse(source.as_str()),
            None => {
                let mut message = String::from_str("unknown island \"");
                message.append(name);
                message.append("\"");
                Err(message)
            },
        }
    }

    /// The puzzle ids: every temple's levels, temple by temple.
    pub fn puzzle_ids(&self) -> (r: Vec<&str>)
        ensures
            r@.map_values(|id: &str| id@) == puzzle_ids_spec(self.view().temples),
    {
        let mut out: Vec<&str> = Vec::new();
        let mut t: usize = 0;
        while t < self.temples.len()
            invariant
                t <= self.temples@.len(),
                out@.map_values(|id: &str| id@) == puzzle_ids_spec(temple_views(self.temples@).take(t as int)),
            decreases self.temples@.len() - t,
        {
            let temple = &self.temples[t];
            let ghost before = out@.map_values(|id: &str| id@);
            let mut k: usize = 0;
            while k < temple.levels.len()
                invariant
                    k <= temple.levels@.len(),
                    out@.map_values(|id: &str| id@) == before + string_views(temple.levels@).take(k as int),
                decreases temple.levels@.len() - k,
            {
                let level = temple.levels[k].as_str();
                assert(level@ == string_views(temple.levels@)[k as int]);
                let ghost prev = out@;
                out.push(level);
                assert(out@.map_values(|id: &str| id@) =~= prev.map_values(|id: &str| id@).push(level@));
                assert(string_views(temple.levels@).take(k + 1) =~= string_views(temple.levels@).take(k as int).push(level@));
                assert(out@.map_values(|id: &str| id@) =~= before + string_views(temple.levels@).take(k + 1));
                k += 1;
            }
            assert(string_views(temple.levels@).take(k as int) =~= string_views(temple.levels@));
            assert(temple_views(self.temples@).take(t + 1).drop_last() =~= temple_views(self.temples@).take(t as int));
            t += 1;
        }
        assert(temple_views(self.temples@).take(t as int) =~= temple_views(self.temples@));
        out
    }

    /// The display names of the puzzles, in puzzle order.
    pub fn puzzle_names(&self) -> (r: Result<Vec<String>, String>)
        ensures
            match r {
                Ok(names) => {
                    let ids = puzzle_ids_spec(self.view().temples);
                    &&& puzzle_names_ok(self.view(), ids)
                    &&& names@.len() == ids.len()
                    &&& forall|i: int|
                        0 <= i < ids.len() ==> #[trigger] names@[i]@ == lookup_state_name(self.view(), ids[i])
                },
                Err(_) => !puzzle_names_ok(self.view(), puzzle_ids_spec(self.view().temples)),
            },
    {
        let ids = self.puzzle_ids();
        let ghost id_views = ids@.map_values(|id: &str| id@);
        let mut names: Vec<String> = Vec::new();
        let mut i: usize = 0;
        while i < ids.len()
            invariant
                i <= ids@.len(),
                id_views == ids@.map_values(|id: &str| id@),
                id_views == puzzle_ids_spec(self.view().temples),
                names@.len() == i,
                forall|j: int|
                    0 <= j < i ==> #[trigger] state_parses(self.view(), id_views[j]),
                forall|j: int| 0 <= j < i ==> #[trigger] names@[j]@ == lookup_state_name(self.view(), id_views[j]),
            decreases ids@.len() - i,
        {
            let id = ids[i];
            assert(id@ == id_views[i as int]);
            let source = match state_source(&self.island_state_sources, id) {
                Some(source) => source,
                None => {
                    let mut message = String::from_str("missing puzzle state \"");
                    message.append(id);
                    message.append("\"");
                    assert(lookup(self.view().island_state_sources, id_views[i as int]) is None);
                    assert(!state_parses(self.view(), id_views[i as int]));
                    return Err(message);
                },
            };
            let state = match GameState::parse(source.as_str()) {
                Ok(state) => state,
                Err(message) => {
                    assert(!state_ok(source@));
                    assert(!state_parses(self.view(), id_views[i as int]));
                    return Err(message);
                },
            };
            proof {
                lemma_state_name(source@, state);
            }
            names.push(state.display_name);
            i += 1;
        }
        Ok(names)
    }
}

/// The display name of the state stored for `id`.
pub open spec fn lookup_state_name(c: CampaignView, id: Seq<char>) -> Seq<char> {
    match lookup(c.island_state_sources, id) {
        Some(source) => state_display_name(source),
        None => Seq::empty(),
    }
}

/// The display name a state string records.
pub open spec fn state_display_name(source: Seq<char>) -> Seq<char> {
    crate::sausage::model::section(source, 4)
}

proof fn lemma_state_name(source: Seq<char>, g: GameState)
    requires
        state_ok(source),
        state_of(source, g),
    ensures
        g.display_name@ == state_display_name(source),
{
}

} // verus!
