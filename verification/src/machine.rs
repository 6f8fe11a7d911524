//! The execution state: register file, growable memory arena, pointer stack.
//!
//! Rather than raw host pointers, an address here is a plain 64-bit value in
//! a single flat address space. Addresses below the
//! arena's current length are offsets into the arena. The 13-word register
//! file is mapped at a fixed high window starting at `REG_WINDOW_BASE`, and
//! the arena's reserved first machine word is pre-initialized to that base,
//! so a program can discover the register file by dereferencing at the base
//! cursor, exactly as the raw-pointer design intends. Every other address is
//! invalid, and an access to one halts the run with a fault; the arena is
//! capped below the register window, and a growth past that cap is the
//! allocation-failure fault.
//!
//! Machine words are 8 bytes, read and written unaligned, little-endian.

use vstd::prelude::*;

verus! {

/// Bytes in one machine word.
pub const WORD_BYTES: usize = 8;

/// General-purpose registers exposed to the interpreted program (the three
/// reserved by the host calling convention are excluded).
pub const REG_COUNT: usize = 13;

/// Bytes in the register file: `REG_COUNT` little-endian machine words.
pub const REG_FILE_BYTES: usize = 104;

/// The address at which the register file's bytes are mapped.
pub const REG_WINDOW_BASE: u64 = 0x8000_0000_0000_0000;

/// The mathematical model of the execution state: register-file bytes, arena
/// bytes, the pointer stack (top is the active cursor), and how many recorded
/// syscall responses have been consumed.
#[verifier::ext_equal]
pub struct EState {
    pub regs: Seq<u8>,
    pub arena: Seq<u8>,
    pub stack: Seq<u64>,
    pub used: nat,
}

pub open spec fn st_wf(st: EState) -> bool {
    &&& st.regs.len() == REG_FILE_BYTES
    &&& WORD_BYTES <= st.arena.len()
    &&& st.arena.len() <= REG_WINDOW_BASE
    &&& st.stack.len() >= 1
}

/// The active cursor: the top of the pointer stack.
pub open spec fn cursor(st: EState) -> u64 {
    st.stack.last()
}

/// Whether address `a` names a byte: inside the arena, or inside the
/// register window.
pub open spec fn addr_ok(st: EState, a: int) -> bool {
    ||| 0 <= a < st.arena.len()
    ||| REG_WINDOW_BASE <= a < REG_WINDOW_BASE + REG_FILE_BYTES
}

/// The byte at a valid address.
pub open spec fn byte_at(st: EState, a: int) -> u8 {
    if 0 <= a < st.arena.len() {
        st.arena[a]
    } else {
        st.regs[a - REG_WINDOW_BASE]
    }
}

/// The state with the byte at a valid address replaced.
pub open spec fn with_byte(st: EState, a: int, v: u8) -> EState {
    if 0 <= a < st.arena.len() {
        EState { arena: st.arena.update(a, v), ..st }
    } else {
        EState { regs: st.regs.update(a - REG_WINDOW_BASE, v), ..st }
    }
}

/// Wrapping 8-bit increment.
pub open spec fn inc8(b: u8) -> u8 {
    if b == 255 { 0 } else { (b + 1) as u8 }
}

/// Wrapping 8-bit decrement.
pub open spec fn dec8(b: u8) -> u8 {
    if b == 0 { 255 } else { (b - 1) as u8 }
}

/// Wrapping 64-bit address increment.
pub open spec fn addr_inc(a: u64) -> u64 {
    if a == u64::MAX { 0 } else { (a + 1) as u64 }
}

/// Wrapping 64-bit address decrement.
pub open spec fn addr_dec(a: u64) -> u64 {
    if a == 0 { u64::MAX } else { (a - 1) as u64 }
}

/// The value of 8 bytes read as one little-endian machine word.
pub open spec fn le_word(b0: u8, b1: u8, b2: u8, b3: u8, b4: u8, b5: u8, b6: u8, b7: u8) -> u64 {
    (b0 + b1 * 0x100 + b2 * 0x1_0000 + b3 * 0x100_0000 + b4 * 0x1_0000_0000
        + b5 * 0x100_0000_0000 + b6 * 0x1_0000_0000_0000 + b7 * 0x100_0000_0000_0000) as u64
}

/// The place value of byte `k` of a little-endian machine word.
pub open spec fn byte_scale(k: int) -> int {
    if k == 0 { 0x1 }
    else if k == 1 { 0x100 }
    else if k == 2 { 0x1_0000 }
    else if k == 3 { 0x100_0000 }
    else if k == 4 { 0x1_0000_0000 }
    else if k == 5 { 0x100_0000_0000 }
    else if k == 6 { 0x1_0000_0000_0000 }
    else { 0x100_0000_0000_0000 }
}

/// Byte `k` of the little-endian encoding of `w`.
pub open spec fn word_byte(w: u64, k: int) -> u8 {
    (((w as int) / byte_scale(k)) % 0x100) as u8
}

/// Whether a whole machine word can be read or written starting at `a`.
pub open spec fn word_ok(st: EState, a: u64) -> bool {
    forall|k: int| 0 <= k < WORD_BYTES ==> #[trigger] addr_ok(st, a + k)
}

/// The machine word read unaligned at address `a`.
pub open spec fn word_at(st: EState, a: u64) -> u64 {
    le_word(
        byte_at(st, a + 0), byte_at(st, a + 1), byte_at(st, a + 2), byte_at(st, a + 3),
        byte_at(st, a + 4), byte_at(st, a + 5), byte_at(st, a + 6), byte_at(st, a + 7),
    )
}

/// The state with the machine word at address `a` replaced by `w`.
pub open spec fn with_word(st: EState, a: u64, w: u64) -> EState {
    with_byte(with_byte(with_byte(with_byte(with_byte(with_byte(with_byte(with_byte(
        st, a + 0, word_byte(w, 0)), a + 1, word_byte(w, 1)), a + 2, word_byte(w, 2)),
        a + 3, word_byte(w, 3)), a + 4, word_byte(w, 4)), a + 5, word_byte(w, 5)),
        a + 6, word_byte(w, 6)), a + 7, word_byte(w, 7))
}

/// `n` zero bytes.
pub open spec fn zeros(n: nat) -> Seq<u8> {
    Seq::new(n, |i: int| 0u8)
}

/// The execution state owned by one run: the register file (13 little-endian
/// machine words), the memory arena, and the pointer stack.
pub struct Machine {
    pub regs: Vec<u8>,
    pub arena: Vec<u8>,
    pub stack: Vec<u64>,
}

impl Machine {
    /// The model of this machine, given how many syscall responses were
    /// already consumed.
    pub open spec fn st(self, used: nat) -> EState {
        EState { regs: self.regs@, arena: self.arena@, stack: self.stack@, used }
    }

    pub open spec fn wf(self) -> bool {
        st_wf(self.st(0))
    }

    /// A fresh machine: zeroed registers, a one-word arena whose reserved
    /// first word holds the register window's base address, and the pointer
    /// stack seeded with the arena's base address.
    pub fn new() -> (m: Machine)
        ensures
            m.wf(),
            m.regs@ == zeros(REG_FILE_BYTES as nat),
            m.arena@ =~= seq![0u8, 0u8, 0u8, 0u8, 0u8, 0u8, 0u8, 0x80u8],
            m.stack@ =~= seq![0u64],
            word_at(m.st(0), 0) == REG_WINDOW_BASE,
    {
        let mut regs: Vec<u8> = Vec::new();
        let mut j: usize = 0;
        while j < REG_FILE_BYTES
            invariant
                j <= REG_FILE_BYTES,
                regs@ =~= zeros(j as nat),
            decreases REG_FILE_BYTES - j,
        {
            regs.push(0u8);
            proof {
                assert(regs@ =~= zeros((j + 1) as nat));
            }
            j = j + 1;
        }
        let mut arena: Vec<u8> = Vec::new();
        arena.push(0u8);
        arena.push(0u8);
        arena.push(0u8);
        arena.push(0u8);
        arena.push(0u8);
        arena.push(0u8);
        arena.push(0u8);
        arena.push(0x80u8);
        let mut stack: Vec<u64> = Vec::new();
        stack.push(0u64);
        let m = Machine { regs, arena, stack };
        proof {
            assert(m.regs@ =~= zeros(REG_FILE_BYTES as nat));
            assert(m.arena@ =~= seq![0u8, 0u8, 0u8, 0u8, 0u8, 0u8, 0u8, 0x80u8]);
            assert(word_at(m.st(0), 0) == REG_WINDOW_BASE);
        }
        m
    }
}

/// Whether address `a` names a byte of this machine.
pub fn addr_valid(m: &Machine, a: u64) -> (r: bool)
    requires
        m.wf(),
    ensures
        forall|u: nat| r == addr_ok(#[trigger] m.st(u), a as int),
{
    a < m.arena.len() as u64 || (a >= REG_WINDOW_BASE && a - REG_WINDOW_BASE < REG_FILE_BYTES as u64)
}

/// Read the byte at `a`, or `None` if the address is invalid.
pub fn read_byte(m: &Machine, a: u64) -> (r: Option<u8>)
    requires
        m.wf(),
    ensures
        forall|u: nat| addr_ok(#[trigger] m.st(u), a as int) ==> r == Some(
            byte_at(m.st(u), a as int),
        ),
        forall|u: nat| !addr_ok(#[trigger] m.st(u), a as int) ==> r == None::<u8>,
{
    if a < m.arena.len() as u64 {
        Some(m.arena[a as usize])
    } else if a >= REG_WINDOW_BASE && a - REG_WINDOW_BASE < REG_FILE_BYTES as u64 {
        Some(m.regs[(a - REG_WINDOW_BASE) as usize])
    } else {
        None
    }
}

/// Write the byte at `a`; `false` (and no change) if the address is invalid.
pub fn write_byte(m: &mut Machine, a: u64, v: u8) -> (ok: bool)
    requires
        old(m).wf(),
    ensures
        final(m).wf(),
        forall|u: nat| ok == addr_ok(#[trigger] old(m).st(u), a as int),
        ok ==> forall|u: nat| #[trigger] final(m).st(u) == with_byte(old(m).st(u), a as int, v),
        !ok ==> *final(m) == *old(m),
{
    if a < m.arena.len() as u64 {
        m.arena[a as usize] = v;
        proof {
            assert(forall|u: nat| m.st(u) =~= with_byte(old(m).st(u), a as int, v));
        }
        true
    } else if a >= REG_WINDOW_BASE && a - REG_WINDOW_BASE < REG_FILE_BYTES as u64 {
        m.regs[(a - REG_WINDOW_BASE) as usize] = v;
        proof {
            assert(forall|u: nat| m.st(u) =~= with_byte(old(m).st(u), a as int, v));
        }
        true
    } else {
        false
    }
}

/// Whether a whole machine word can be accessed at `a`.
pub fn word_valid(m: &Machine, a: u64) -> (r: bool)
    requires
        m.wf(),
    ensures
        forall|u: nat| r == word_ok(#[trigger] m.st(u), a),
{
    if a > u64::MAX - 7 {
        proof {
            assert forall|u: nat| !word_ok(#[trigger] m.st(u), a) by {
                assert(!addr_ok(m.st(u), a + 7));
            }
        }
        return false;
    }
    let r = addr_valid(m, a) && addr_valid(m, a + 1) && addr_valid(m, a + 2)
        && addr_valid(m, a + 3) && addr_valid(m, a + 4) && addr_valid(m, a + 5)
        && addr_valid(m, a + 6) && addr_valid(m, a + 7);
    proof {
        assert forall|u: nat| r == word_ok(#[trigger] m.st(u), a) by {
            if r {
                assert forall|k: int| 0 <= k < WORD_BYTES implies #[trigger] addr_ok(
                    m.st(u),
                    a + k,
                ) by {
                    assert(k == 0 || k == 1 || k == 2 || k == 3 || k == 4 || k == 5 || k == 6
                        || k == 7);
                }
            } else {
                if word_ok(m.st(u), a) {
                    assert(addr_ok(m.st(u), a + 0));
                    assert(addr_ok(m.st(u), a + 1));
                    assert(addr_ok(m.st(u), a + 2));
                    assert(addr_ok(m.st(u), a + 3));
                    assert(addr_ok(m.st(u), a + 4));
                    assert(addr_ok(m.st(u), a + 5));
                    assert(addr_ok(m.st(u), a + 6));
                    assert(addr_ok(m.st(u), a + 7));
                }
            }
        }
    }
    r
}

/// Every address of a word that `word_ok` admits fits in 64 bits.
proof fn lemma_word_addrs(st: EState, a: u64)
    requires
        st_wf(st),
        word_ok(st, a),
    ensures
        a + 7 <= u64::MAX,
        forall|k: int| 0 <= k < WORD_BYTES ==> #[trigger] addr_ok(st, a + k),
        addr_ok(st, a as int),
{
    assert(addr_ok(st, a + 7));
    assert(addr_ok(st, a + 0));
}

/// Read the machine word at `a` unaligned, or `None` if any of its bytes has
/// an invalid address.
pub fn read_word(m: &Machine, a: u64) -> (r: Option<u64>)
    requires
        m.wf(),
    ensures
        forall|u: nat| word_ok(#[trigger] m.st(u), a) ==> r == Some(word_at(m.st(u), a)),
        forall|u: nat| !word_ok(#[trigger] m.st(u), a) ==> r == None::<u64>,
{
    if !word_valid(m, a) {
        return None;
    }
    proof {
        lemma_word_addrs(m.st(0), a);
        assert(addr_ok(m.st(0), a + 1));
        assert(addr_ok(m.st(0), a + 2));
        assert(addr_ok(m.st(0), a + 3));
        assert(addr_ok(m.st(0), a + 4));
        assert(addr_ok(m.st(0), a + 5));
        assert(addr_ok(m.st(0), a + 6));
        assert(addr_ok(m.st(0), a + 7));
    }
    let b0 = m_byte(m, a);
    let b1 = m_byte(m, a + 1);
    let b2 = m_byte(m, a + 2);
    let b3 = m_byte(m, a + 3);
    let b4 = m_byte(m, a + 4);
    let b5 = m_byte(m, a + 5);
    let b6 = m_byte(m, a + 6);
    let b7 = m_byte(m, a + 7);
    let w = b0 as u64 + (b1 as u64) * 0x100 + (b2 as u64) * 0x1_0000 + (b3 as u64) * 0x100_0000
        + (b4 as u64) * 0x1_0000_0000 + (b5 as u64) * 0x100_0000_0000
        + (b6 as u64) * 0x1_0000_0000_0000 + (b7 as u64) * 0x100_0000_0000_0000;
    Some(w)
}

/// The byte at an address known to be valid.
fn m_byte(m: &Machine, a: u64) -> (r: u8)
    requires
        m.wf(),
        addr_ok(m.st(0), a as int),
    ensures
        r == byte_at(m.st(0), a as int),
{
    if a < m.arena.len() as u64 {
        m.arena[a as usize]
    } else {
        m.regs[(a - REG_WINDOW_BASE) as usize]
    }
}

/// Write machine word `w` at `a` unaligned; `false` (and no change) if any of
/// its bytes has an invalid address.
pub fn write_word(m: &mut Machine, a: u64, w: u64) -> (ok: bool)
    requires
        old(m).wf(),
    ensures
        final(m).wf(),
        forall|u: nat| ok == word_ok(#[trigger] old(m).st(u), a),
        ok ==> forall|u: nat| #[trigger] final(m).st(u) == with_word(old(m).st(u), a, w),
        !ok ==> *final(m) == *old(m),
{
    if !word_valid(m, a) {
        return false;
    }
    let ghost st0 = m.st(0);
    proof {
        lemma_word_addrs(st0, a);
        assert(addr_ok(st0, a + 1));
        assert(addr_ok(st0, a + 2));
        assert(addr_ok(st0, a + 3));
        assert(addr_ok(st0, a + 4));
        assert(addr_ok(st0, a + 5));
        assert(addr_ok(st0, a + 6));
        assert(addr_ok(st0, a + 7));
    }
    let v0 = ((w / 0x1) % 0x100) as u8;
    let v1 = ((w / 0x100) % 0x100) as u8;
    let v2 = ((w / 0x1_0000) % 0x100) as u8;
    let v3 = ((w / 0x100_0000) % 0x100) as u8;
    let v4 = ((w / 0x1_0000_0000) % 0x100) as u8;
    let v5 = ((w / 0x100_0000_0000) % 0x100) as u8;
    let v6 = ((w / 0x1_0000_0000_0000) % 0x100) as u8;
    let v7 = ((w / 0x100_0000_0000_0000) % 0x100) as u8;
    proof {
        assert(v0 == word_byte(w, 0) && v1 == word_byte(w, 1) && v2 == word_byte(w, 2)
            && v3 == word_byte(w, 3) && v4 == word_byte(w, 4) && v5 == word_byte(w, 5)
            && v6 == word_byte(w, 6) && v7 == word_byte(w, 7));
    }
    let ok0 = write_byte(m, a, v0);
    proof { assert(ok0); assert(addr_ok(m.st(0), a + 1)); }
    let ok1 = write_byte(m, a + 1, v1);
    proof { assert(ok1); assert(addr_ok(m.st(0), a + 2)); }
    let ok2 = write_byte(m, a + 2, v2);
    proof { assert(ok2); assert(addr_ok(m.st(0), a + 3)); }
    let ok3 = write_byte(m, a + 3, v3);
    proof { assert(ok3); assert(addr_ok(m.st(0), a + 4)); }
    let ok4 = write_byte(m, a + 4, v4);
    proof { assert(ok4); assert(addr_ok(m.st(0), a + 5)); }
    let ok5 = write_byte(m, a + 5, v5);
    proof { assert(ok5); assert(addr_ok(m.st(0), a + 6)); }
    let ok6 = write_byte(m, a + 6, v6);
    proof { assert(ok6); assert(addr_ok(m.st(0), a + 7)); }
    let ok7 = write_byte(m, a + 7, v7);
    proof {
        assert(ok7);
        assert forall|u: nat| m.st(u) == with_word(old(m).st(u), a, w) by {
            assert(m.st(u) == with_byte(with_byte(with_byte(with_byte(with_byte(with_byte(
                with_byte(with_byte(old(m).st(u), a + 0, word_byte(w, 0)), a + 1,
                word_byte(w, 1)), a + 2, word_byte(w, 2)), a + 3, word_byte(w, 3)), a + 4,
                word_byte(w, 4)), a + 5, word_byte(w, 5)), a + 6, word_byte(w, 6)), a + 7,
                word_byte(w, 7)));
        }
    }
    true
}

/// Double the arena, keeping every existing byte at its offset and zero-
/// filling the new bytes; `false` (and no change) when the doubled length
/// would pass the register window, the allocation-failure condition.
pub fn grow_arena(m: &mut Machine) -> (ok: bool)
    requires
        old(m).wf(),
    ensures
        final(m).wf(),
        final(m).regs == old(m).regs,
        final(m).stack == old(m).stack,
        ok == (2 * old(m).arena@.len() <= REG_WINDOW_BASE),
        ok ==> final(m).arena@ == old(m).arena@ + zeros(old(m).arena@.len()),
        !ok ==> *final(m) == *old(m),
{
    let len = m.arena.len();
    if len as u64 > REG_WINDOW_BASE / 2 {
        return false;
    }
    let mut j: usize = 0;
    while j < len
        invariant
            j <= len,
            m.arena@ =~= old(m).arena@ + zeros(j as nat),
            m.regs == old(m).regs,
            m.stack == old(m).stack,
            len == old(m).arena@.len(),
            old(m).wf(),
        decreases len - j,
    {
        m.arena.push(0u8);
        proof {
            assert(m.arena@ =~= old(m).arena@ + zeros((j + 1) as nat));
        }
        j = j + 1;
    }
    true
}


/// The little-endian bytes of a word reassemble to the word.
pub proof fn lemma_word_bytes_value(w: u64)
    ensures
        le_word(
            word_byte(w, 0), word_byte(w, 1), word_byte(w, 2), word_byte(w, 3),
            word_byte(w, 4), word_byte(w, 5), word_byte(w, 6), word_byte(w, 7),
        ) == w,
{
    assert(((w / 0x1) % 0x100) + ((w / 0x100) % 0x100) * 0x100
        + ((w / 0x1_0000) % 0x100) * 0x1_0000 + ((w / 0x100_0000) % 0x100) * 0x100_0000
        + ((w / 0x1_0000_0000) % 0x100) * 0x1_0000_0000
        + ((w / 0x100_0000_0000) % 0x100) * 0x100_0000_0000
        + ((w / 0x1_0000_0000_0000) % 0x100) * 0x1_0000_0000_0000
        + ((w / 0x100_0000_0000_0000) % 0x100) * 0x100_0000_0000_0000 == w) by (bit_vector);
}


/// A machine word written unaligned at a valid address reads back unchanged.
pub proof fn lemma_word_round_trip(st: EState, a: u64, w: u64)
    requires
        st_wf(st),
        word_ok(st, a),
    ensures
        st_wf(with_word(st, a, w)),
        word_ok(with_word(st, a, w), a),
        word_at(with_word(st, a, w), a) == w,
        with_word(st, a, w).stack == st.stack,
        with_word(st, a, w).used == st.used,
        with_word(st, a, w).arena.len() == st.arena.len(),
{
    lemma_word_addrs(st, a);
    assert(addr_ok(st, a + 0) && addr_ok(st, a + 1) && addr_ok(st, a + 2) && addr_ok(st, a + 3)
        && addr_ok(st, a + 4) && addr_ok(st, a + 5) && addr_ok(st, a + 6) && addr_ok(st, a + 7));
    let s0 = st;
    let s1 = with_byte(s0, a + 0, word_byte(w, 0));
    let s2 = with_byte(s1, a + 1, word_byte(w, 1));
    let s3 = with_byte(s2, a + 2, word_byte(w, 2));
    let s4 = with_byte(s3, a + 3, word_byte(w, 3));
    let s5 = with_byte(s4, a + 4, word_byte(w, 4));
    let s6 = with_byte(s5, a + 5, word_byte(w, 5));
    let s7 = with_byte(s6, a + 6, word_byte(w, 6));
    let s8 = with_byte(s7, a + 7, word_byte(w, 7));
    assert(s1.arena.len() == st.arena.len() && s1.regs.len() == st.regs.len()
        && s1.stack == st.stack && s1.used == st.used);
    assert(s2.arena.len() == st.arena.len() && s2.regs.len() == st.regs.len()
        && s2.stack == st.stack && s2.used == st.used);
    assert(s3.arena.len() == st.arena.len() && s3.regs.len() == st.regs.len()
        && s3.stack == st.stack && s3.used == st.used);
    assert(s4.arena.len() == st.arena.len() && s4.regs.len() == st.regs.len()
        && s4.stack == st.stack && s4.used == st.used);
    assert(s5.arena.len() == st.arena.len() && s5.regs.len() == st.regs.len()
        && s5.stack == st.stack && s5.used == st.used);
    assert(s6.arena.len() == st.arena.len() && s6.regs.len() == st.regs.len()
        && s6.stack == st.stack && s6.used == st.used);
    assert(s7.arena.len() == st.arena.len() && s7.regs.len() == st.regs.len()
        && s7.stack == st.stack && s7.used == st.used);
    assert(s8.arena.len() == st.arena.len() && s8.regs.len() == st.regs.len()
        && s8.stack == st.stack && s8.used == st.used);
    assert(s8 == with_word(st, a, w));
    assert(byte_at(s1, a + 0) == word_byte(w, 0));
    assert(byte_at(s2, a + 0) == byte_at(s1, a + 0));
    assert(byte_at(s3, a + 0) == byte_at(s2, a + 0));
    assert(byte_at(s4, a + 0) == byte_at(s3, a + 0));
    assert(byte_at(s5, a + 0) == byte_at(s4, a + 0));
    assert(byte_at(s6, a + 0) == byte_at(s5, a + 0));
    assert(byte_at(s7, a + 0) == byte_at(s6, a + 0));
    assert(byte_at(s8, a + 0) == byte_at(s7, a + 0));
    assert(byte_at(s2, a + 1) == word_byte(w, 1));
    assert(byte_at(s3, a + 1) == byte_at(s2, a + 1));
    assert(byte_at(s4, a + 1) == byte_at(s3, a + 1));
    assert(byte_at(s5, a + 1) == byte_at(s4, a + 1));
    assert(byte_at(s6, a + 1) == byte_at(s5, a + 1));
    assert(byte_at(s7, a + 1) == byte_at(s6, a + 1));
    assert(byte_at(s8, a + 1) == byte_at(s7, a + 1));
    assert(byte_at(s3, a + 2) == word_byte(w, 2));
    assert(byte_at(s4, a + 2) == byte_at(s3, a + 2));
    assert(byte_at(s5, a + 2) == byte_at(s4, a + 2));
    assert(byte_at(s6, a + 2) == byte_at(s5, a + 2));
    assert(byte_at(s7, a + 2) == byte_at(s6, a + 2));
    assert(byte_at(s8, a + 2) == byte_at(s7, a + 2));
    assert(byte_at(s4, a + 3) == word_byte(w, 3));
    assert(byte_at(s5, a + 3) == byte_at(s4, a + 3));
    assert(byte_at(s6, a + 3) == byte_at(s5, a + 3));
    assert(byte_at(s7, a + 3) == byte_at(s6, a + 3));
    assert(byte_at(s8, a + 3) == byte_at(s7, a + 3));
    assert(byte_at(s5, a + 4) == word_byte(w, 4));
    assert(byte_at(s6, a + 4) == byte_at(s5, a + 4));
    assert(byte_at(s7, a + 4) == byte_at(s6, a + 4));
    assert(byte_at(s8, a + 4) == byte_at(s7, a + 4));
    assert(byte_at(s6, a + 5) == word_byte(w, 5));
    assert(byte_at(s7, a + 5) == byte_at(s6, a + 5));
    assert(byte_at(s8, a + 5) == byte_at(s7, a + 5));
    assert(byte_at(s7, a + 6) == word_byte(w, 6));
    assert(byte_at(s8, a + 6) == byte_at(s7, a + 6));
    assert(byte_at(s8, a + 7) == word_byte(w, 7));
    assert forall|k: int| 0 <= k < WORD_BYTES implies #[trigger] addr_ok(s8, a + k) by {
        assert(addr_ok(st, a + k));
    }
    lemma_word_bytes_value(w);
}

} // verus!
