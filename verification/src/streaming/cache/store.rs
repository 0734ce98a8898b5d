//! Names and accounting for cache entries on disk.
//!
//! An entry's file name is derived from its chunk coordinate alone, so no
//! external string ever reaches a path.

use vstd::prelude::*;
use vstd::string::StringExecFns;

use crate::voxel::ChunkCoord;

verus! {

/// What publishing an entry did.
#[derive(Clone, Copy, Debug, PartialEq, Eq, Structural)]
pub enum PublishOutcome {
    /// The entry was written and published under its final name.
    Written,
    /// An entry already existed, or another publisher won a rename race.
    AlreadyPresent,
}

/// How much disk one source identity's cache occupies.
#[derive(Clone, Copy, Debug, Default, PartialEq, Eq, Structural)]
pub struct CacheFootprint {
    pub entries: u64,
    pub bytes: u64,
}

impl CacheFootprint {
    /// Counts one published entry of `len` bytes.
    pub fn count(&mut self, len: u64)
        requires
            old(self).entries < u64::MAX,
            old(self).bytes + len <= u64::MAX,
        ensures
            final(self).entries == old(self).entries + 1,
            final(self).bytes == old(self).bytes + len,
    {
        self.entries = self.entries + 1;
        self.bytes = self.bytes + len;
    }
}

/// The lowercase hexadecimal digit of a value below sixteen.
pub open spec fn spec_hex_digit(digit: int) -> char {
    if digit == 0 {
        '0'
    } else if digit == 1 {
        '1'
    } else if digit == 2 {
        '2'
    } else if digit == 3 {
        '3'
    } else if digit == 4 {
        '4'
    } else if digit == 5 {
        '5'
    } else if digit == 6 {
        '6'
    } else if digit == 7 {
        '7'
    } else if digit == 8 {
        '8'
    } else if digit == 9 {
        '9'
    } else if digit == 10 {
        'a'
    } else if digit == 11 {
        'b'
    } else if digit == 12 {
        'c'
    } else if digit == 13 {
        'd'
    } else if digit == 14 {
        'e'
    } else {
        'f'
    }
}

/// The low `digits` hexadecimal digits of a value, most significant first.
pub open spec fn spec_hex(value: nat, digits: nat) -> Seq<char>
    decreases digits,
{
    if digits == 0 {
        Seq::empty()
    } else {
        spec_hex(value / 16, (digits - 1) as nat).push(spec_hex_digit((value % 16) as int))
    }
}

/// The file name of a chunk's entry: each coordinate as the eight-digit
/// hexadecimal of its two's-complement bit pattern.
pub open spec fn spec_entry_name(coord: ChunkCoord) -> Seq<char> {
    seq!['x'] + spec_hex(coord.x as u32 as nat, 8) + seq!['_', 'y'] + spec_hex(
        coord.y as u32 as nat,
        8,
    ) + seq!['_', 'z'] + spec_hex(coord.z as u32 as nat, 8) + seq!['.', 'v', 'w', 'c']
}

/// The hexadecimal digit of a value below sixteen, as text.
pub fn hex_digit_of(digit: u32) -> (text: &'static str)
    requires
        digit < 16,
    ensures
        text@ == seq![spec_hex_digit(digit as int)],
{
    proof {
        reveal_strlit("0");
        reveal_strlit("1");
        reveal_strlit("2");
        reveal_strlit("3");
        reveal_strlit("4");
        reveal_strlit("5");
        reveal_strlit("6");
        reveal_strlit("7");
        reveal_strlit("8");
        reveal_strlit("9");
        reveal_strlit("a");
        reveal_strlit("b");
        reveal_strlit("c");
        reveal_strlit("d");
        reveal_strlit("e");
        reveal_strlit("f");
    }
    if digit == 0 {
        "0"
    } else if digit == 1 {
        "1"
    } else if digit == 2 {
        "2"
    } else if digit == 3 {
        "3"
    } else if digit == 4 {
        "4"
    } else if digit == 5 {
        "5"
    } else if digit == 6 {
        "6"
    } else if digit == 7 {
        "7"
    } else if digit == 8 {
        "8"
    } else if digit == 9 {
        "9"
    } else if digit == 10 {
        "a"
    } else if digit == 11 {
        "b"
    } else if digit == 12 {
        "c"
    } else if digit == 13 {
        "d"
    } else if digit == 14 {
        "e"
    } else {
        "f"
    }
}

fn push_hex(name: &mut String, value: u32, digits: u32)
    requires
        digits <= 8,
    ensures
        final(name)@ == old(name)@ + spec_hex(value as nat, digits as nat),
    decreases digits,
{
    if digits > 0 {
        push_hex(name, value / 16, digits - 1);
        name.append(hex_digit_of(value % 16));
    } else {
        proof {
            assert(old(name)@ + spec_hex(value as nat, 0) =~= old(name)@);
        }
    }
}

/// Deterministic file name for a chunk: fixed width, only `[0-9a-z_.]`, so it
/// can never produce `..`, a separator or any other traversal.
pub fn entry_name(coord: ChunkCoord) -> (name: String)
    ensures
        name@ == spec_entry_name(coord),
{
    let mut name = String::new();
    name.append("x");
    push_hex(&mut name, coord.x as u32, 8);
    name.append("_y");
    push_hex(&mut name, coord.y as u32, 8);
    name.append("_z");
    push_hex(&mut name, coord.z as u32, 8);
    name.append(".vwc");
    proof {
        reveal_strlit("x");
        reveal_strlit("_y");
        reveal_strlit("_z");
        reveal_strlit(".vwc");
        assert(name@ =~= spec_entry_name(coord));
    }
    name
}

/// Whether a character may appear in an entry name.
pub open spec fn spec_name_char(c: char) -> bool {
    ('0' <= c <= '9') || ('a' <= c <= 'z') || c == '_' || c == '.'
}

proof fn lemma_hex_shape(value: nat, digits: nat)
    ensures
        spec_hex(value, digits).len() == digits,
        forall|i: int|
            0 <= i < digits ==> ('0' <= #[trigger] spec_hex(value, digits)[i] <= '9') || ('a'
                <= spec_hex(value, digits)[i] <= 'f'),
    decreases digits,
{
    if digits > 0 {
        lemma_hex_shape(value / 16, (digits - 1) as nat);
    }
}

/// The bound below which `digits` hexadecimal digits name a value uniquely.
pub open spec fn spec_hex_bound(digits: nat) -> nat
    decreases digits,
{
    if digits == 0 {
        1
    } else {
        16 * spec_hex_bound((digits - 1) as nat)
    }
}

proof fn lemma_hex_injective(a: nat, b: nat, digits: nat)
    requires
        a < spec_hex_bound(digits),
        b < spec_hex_bound(digits),
        spec_hex(a, digits) == spec_hex(b, digits),
    ensures
        a == b,
    decreases digits,
{
    if digits > 0 {
        let (ha, hb) = (spec_hex(a, digits), spec_hex(b, digits));
        assert(ha.last() == hb.last());
        assert(spec_hex(a / 16, (digits - 1) as nat) =~= ha.drop_last());
        assert(spec_hex(b / 16, (digits - 1) as nat) =~= hb.drop_last());
        lemma_hex_injective(a / 16, b / 16, (digits - 1) as nat);
    }
}

/// Entry names are fixed width and traversal free: thirty-three characters
/// from `[0-9a-z_.]` whatever the coordinate, and distinct coordinates, signs
/// included, never share a name.
pub proof fn lemma_entry_names_are_safe_and_distinct(coord: ChunkCoord, other: ChunkCoord)
    ensures
        spec_entry_name(coord).len() == 33,
        forall|i: int| 0 <= i < 33 ==> spec_name_char(#[trigger] spec_entry_name(coord)[i]),
        spec_entry_name(coord) == spec_entry_name(other) ==> coord == other,
{
    let (x, y, z) = (coord.x as u32 as nat, coord.y as u32 as nat, coord.z as u32 as nat);
    lemma_hex_shape(x, 8);
    lemma_hex_shape(y, 8);
    lemma_hex_shape(z, 8);
    let name = spec_entry_name(coord);
    assert forall|i: int| 0 <= i < 33 implies spec_name_char(#[trigger] name[i]) by {
        if 1 <= i < 9 {
            assert(name[i] == spec_hex(x, 8)[i - 1]);
        } else if 11 <= i < 19 {
            assert(name[i] == spec_hex(y, 8)[i - 11]);
        } else if 21 <= i < 29 {
            assert(name[i] == spec_hex(z, 8)[i - 21]);
        }
    }
    if spec_entry_name(coord) == spec_entry_name(other) {
        let (ox, oy, oz) = (other.x as u32 as nat, other.y as u32 as nat, other.z as u32 as nat);
        lemma_hex_shape(ox, 8);
        lemma_hex_shape(oy, 8);
        lemma_hex_shape(oz, 8);
        let theirs = spec_entry_name(other);
        assert(name.subrange(1, 9) =~= spec_hex(x, 8));
        assert(theirs.subrange(1, 9) =~= spec_hex(ox, 8));
        assert(name.subrange(11, 19) =~= spec_hex(y, 8));
        assert(theirs.subrange(11, 19) =~= spec_hex(oy, 8));
        assert(name.subrange(21, 29) =~= spec_hex(z, 8));
        assert(theirs.subrange(21, 29) =~= spec_hex(oz, 8));
        assert(spec_hex_bound(8) == 0x1_0000_0000) by {
            reveal_with_fuel(spec_hex_bound, 9);
        }
        lemma_hex_injective(x, ox, 8);
        lemma_hex_injective(y, oy, 8);
        lemma_hex_injective(z, oz, 8);
        let (cx, cy, cz, px, py, pz) = (coord.x, coord.y, coord.z, other.x, other.y, other.z);
        assert(cx as u32 == px as u32 ==> cx == px) by (bit_vector);
        assert(cy as u32 == py as u32 ==> cy == py) by (bit_vector);
        assert(cz as u32 == pz as u32 ==> cz == pz) by (bit_vector);
    }
}

} // verus!
