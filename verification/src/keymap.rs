use vstd::prelude::*;

verus! {

/// The keyboard rows `qwertyu` / `asdfghj` / `zxcvbnm`, read left to right
/// and top to bottom.
pub open spec fn keymap() -> Seq<char> {
    seq![
        'q',
        'w',
        'e',
        'r',
        't',
        'y',
        'u',
        'a',
        's',
        'd',
        'f',
        'g',
        'h',
        'j',
        'z',
        'x',
        'c',
        'v',
        'b',
        'n',
        'm',
    ]
}

/// The board position addressed by the key at position `k` of the keymap:
/// the board is laid out in columns of three, so the key in row `k / 7` and
/// column `k % 7` addresses index `row + column * 3`.
pub open spec fn key_position(k: int) -> int {
    (k / 7) + (k % 7) * 3
}

/// Maps a pressed character to the index of the shown card it addresses,
/// or None for a character outside the keyboard layout.
pub fn corresponding_index(c: char) -> (r: Option<usize>)
    ensures
        r is Some <==> keymap().contains(c),
        forall|k: int| 0 <= k < 21 && keymap()[k] == c ==> r == Some(key_position(k) as usize),
{
    let r: Option<usize> = match c {
        'q' => Some(0),
        'w' => Some(3),
        'e' => Some(6),
        'r' => Some(9),
        't' => Some(12),
        'y' => Some(15),
        'u' => Some(18),
        'a' => Some(1),
        's' => Some(4),
        'd' => Some(7),
        'f' => Some(10),
        'g' => Some(13),
        'h' => Some(16),
        'j' => Some(19),
        'z' => Some(2),
        'x' => Some(5),
        'c' => Some(8),
        'v' => Some(11),
        'b' => Some(14),
        'n' => Some(17),
        'm' => Some(20),
        _ => None,
    };
    proof {
        if keymap().contains(c) {
            let k = choose|k: int| 0 <= k < keymap().len() && keymap()[k] == c;
            assert(r is Some);
        }
    }
    r
}

} // verus!
