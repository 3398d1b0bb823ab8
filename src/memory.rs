use vstd::prelude::*;

use crate::error::ExecError;

verus! {

/// The number of cells of a default tape.
pub const MEM_SIZE: usize = 30000;

/// The mathematical value of a tape: its cells and the pointer.
pub struct Tape {
    pub cells: Seq<u8>,
    pub ptr: int,
}

/// `v` reduced modulo 256.
pub open spec fn wrap(v: int) -> u8 {
    (v % 256) as u8
}

/// The pointer after moving by `amount`: moving below the first cell stops at it.
pub open spec fn clamp_seek(ptr: int, amount: int) -> int {
    if ptr + amount < 0 {
        0
    } else {
        ptr + amount
    }
}

impl Tape {
    pub open spec fn wf(self) -> bool {
        0 <= self.ptr < self.cells.len()
    }

    pub open spec fn current(self) -> u8 {
        self.cells[self.ptr]
    }

    pub open spec fn with_current(self, v: u8) -> Tape {
        Tape { cells: self.cells.update(self.ptr, v), ptr: self.ptr }
    }

    /// The tape after moving the pointer, or `None` when it would pass the last cell.
    pub open spec fn seek(self, amount: int) -> Option<Tape> {
        let p = clamp_seek(self.ptr, amount);
        if p < self.cells.len() {
            Some(Tape { cells: self.cells, ptr: p })
        } else {
            None
        }
    }

    /// The tape after adding `amount` to the current cell, modulo 256.
    pub open spec fn inc(self, amount: int) -> Tape {
        self.with_current(wrap(self.current() + amount))
    }

    /// Whether every cell at the pointer plus an offset of `targets` is on the tape.
    pub open spec fn targets_in_range(self, targets: Seq<isize>) -> bool {
        forall|i: int| 0 <= i < targets.len()
            ==> 0 <= #[trigger] targets[i] + self.ptr < self.cells.len()
    }

    /// The tape after the current cell's value has been moved, additively, to
    /// each cell at an offset of `targets`; `None` when one of them is off the tape.
    pub open spec fn add_and_zero(self, targets: Seq<isize>) -> Option<Tape> {
        if self.current() == 0 {
            Some(self)
        } else if !self.targets_in_range(targets) {
            None
        } else {
            Some(Tape {
                cells: add_to_targets(self.cells, self.ptr, targets, self.current()).update(self.ptr, 0),
                ptr: self.ptr,
            })
        }
    }
}

/// `cells` after adding `v`, modulo 256, to the cell at `base + t` for each `t`
/// of `targets`, in order.
pub open spec fn add_to_targets(cells: Seq<u8>, base: int, targets: Seq<isize>, v: u8) -> Seq<u8>
    decreases targets.len(),
{
    if targets.len() == 0 {
        cells
    } else {
        let c = add_to_targets(cells, base, targets.drop_last(), v);
        let at = base + targets.last();
        c.update(at, wrap(c[at] + v))
    }
}

proof fn lemma_add_to_targets_len(cells: Seq<u8>, base: int, targets: Seq<isize>, v: u8)
    requires
        forall|i: int| 0 <= i < targets.len() ==> 0 <= base + #[trigger] targets[i] < cells.len(),
    ensures
        add_to_targets(cells, base, targets, v).len() == cells.len(),
    decreases targets.len(),
{
    if targets.len() > 0 {
        lemma_add_to_targets_len(cells, base, targets.drop_last(), v);
    }
}

/// Moving left from the first cell, by any amount, leaves the pointer on the
/// first cell and the cells as they were.
pub proof fn lemma_seek_left_from_start(t: Tape, amount: int)
    requires
        t.wf(),
        t.ptr == 0,
        amount <= 0,
    ensures
        t.seek(amount) == Some(Tape { cells: t.cells, ptr: 0 }),
{
}

/// Adding one to a cell that holds 255 gives 0, and subtracting one from a cell
/// that holds 0 gives 255.
pub proof fn lemma_cell_wraps(t: Tape)
    requires
        t.wf(),
    ensures
        t.current() == 255 ==> t.inc(1).current() == 0,
        t.current() == 0 ==> t.inc(-1).current() == 255,
{
}

/// The tape of a running program: a fixed number of cells and a pointer to one of them.
pub struct Memory {
    data: Vec<u8>,
    pointer: usize,
}

impl View for Memory {
    type V = Tape;

    closed spec fn view(&self) -> Tape {
        Tape { cells: self.data@, ptr: self.pointer as int }
    }
}

/// `amount` modulo 256.
fn residue(amount: isize) -> (r: u8)
    ensures
        r as int == amount as int % 256,
{
    if amount >= 0 {
        ((amount as usize) % 256) as u8
    } else {
        let m: usize = ((-(amount + 1)) as usize) % 256;
        (255 - m) as u8
    }
}

/// `value + amount` modulo 256.
fn wrapping_add(value: u8, amount: isize) -> (r: u8)
    ensures
        r == wrap(value + amount),
{
    let d = residue(amount);
    let s: u16 = value as u16 + d as u16;
    let r: u8 = if s >= 256 {
        (s - 256) as u8
    } else {
        s as u8
    };
    assert((value + amount) % 256 == (value + d as int) % 256) by {
        vstd::arithmetic::div_mod::lemma_add_mod_noop(value as int, amount as int, 256);
        vstd::arithmetic::div_mod::lemma_add_mod_noop(value as int, d as int, 256);
        vstd::arithmetic::div_mod::lemma_mod_twice(amount as int, 256);
    }
    r
}

impl Memory {
    /// A tape of `MEM_SIZE` zero cells with the pointer on the first.
    pub fn new() -> (m: Memory)
        ensures
            m@.cells == Seq::new(MEM_SIZE as nat, |i: int| 0u8),
            m@.ptr == 0,
            m.wf(),
    {
        Memory::with_size(MEM_SIZE)
    }

    /// A tape of `size` zero cells with the pointer on the first.
    pub fn with_size(size: usize) -> (m: Memory)
        requires
            size > 0,
        ensures
            m@.cells == Seq::new(size as nat, |i: int| 0u8),
            m@.ptr == 0,
            m.wf(),
    {
        let mut data: Vec<u8> = Vec::with_capacity(size);
        let mut i: usize = 0;
        while i < size
            invariant
                i <= size,
                data@ == Seq::new(i as nat, |k: int| 0u8),
            decreases size - i,
        {
            data.push(0);
            i = i + 1;
            assert(data@ =~= Seq::new(i as nat, |k: int| 0u8));
        }
        Memory { data, pointer: 0 }
    }

    pub open spec fn wf(&self) -> bool {
        self@.wf()
    }

    /// The number of cells.
    pub fn size(&self) -> (n: usize)
        ensures
            n == self@.cells.len(),
    {
        self.data.len()
    }

    /// The index of the current cell.
    pub fn pointer(&self) -> (p: usize)
        ensures
            p == self@.ptr,
    {
        self.pointer
    }

    /// The value of the cell at `index`.
    pub fn cell(&self, index: usize) -> (v: u8)
        requires
            index < self@.cells.len(),
        ensures
            v == self@.cells[index as int],
    {
        self.data[index]
    }

    /// Move the pointer by `amount`. A move below the first cell stops at it; one
    /// past the last cell fails with `OutOfBounds` and leaves the tape as it was.
    pub fn seek(&mut self, amount: isize) -> (r: Result<(), ExecError>)
        requires
            old(self).wf(),
        ensures
            final(self).wf(),
            match old(self)@.seek(amount as int) {
                Some(t) => r == Ok::<(), ExecError>(()) && final(self)@ == t,
                None => r == Err::<(), ExecError>(ExecError::OutOfBounds) && final(self)@ == old(self)@,
            },
    {
        match Memory::seek_virtual(self.pointer, amount, self.data.len()) {
            Some(p) => {
                self.pointer = p;
                Ok(())
            },
            None => Err(ExecError::OutOfBounds),
        }
    }

    /// The pointer `pointer` moved by `amount` on a tape of `size` cells, if it stays on it.
    fn seek_virtual(pointer: usize, amount: isize, size: usize) -> (r: Option<usize>)
        requires
            pointer < size,
        ensures
            match r {
                Some(p) => p == clamp_seek(pointer as int, amount as int) && p < size,
                None => clamp_seek(pointer as int, amount as int) >= size,
            },
    {
        if amount >= 0 {
            let a = amount as usize;
            if a < size - pointer {
                Some(pointer + a)
            } else {
                None
            }
        } else {
            let back: usize = (-(amount + 1)) as usize;
            if back < pointer {
                Some(pointer - back - 1)
            } else {
                Some(0)
            }
        }
    }

    /// Add `amount` to the current cell, modulo 256.
    pub fn inc(&mut self, amount: isize)
        requires
            old(self).wf(),
        ensures
            final(self).wf(),
            final(self)@ == old(self)@.inc(amount as int),
    {
        let v = wrapping_add(self.data[self.pointer], amount);
        self.data.set(self.pointer, v);
    }

    /// The value of the current cell.
    pub fn read(&self) -> (v: u8)
        requires
            self.wf(),
        ensures
            v == self@.current(),
    {
        self.data[self.pointer]
    }

    /// Store `value` in the current cell.
    pub fn write(&mut self, value: u8)
        requires
            old(self).wf(),
        ensures
            final(self).wf(),
            final(self)@ == old(self)@.with_current(value),
    {
        self.data.set(self.pointer, value);
    }

    /// Whether the current cell holds zero.
    pub fn zero(&self) -> (z: bool)
        requires
            self.wf(),
        ensures
            z == (self@.current() == 0),
    {
        self.data[self.pointer] == 0
    }

    /// Set the current cell to zero.
    pub fn set_zero(&mut self)
        requires
            old(self).wf(),
        ensures
            final(self).wf(),
            final(self)@ == old(self)@.with_current(0),
    {
        self.data.set(self.pointer, 0);
    }

    /// Add the current cell's value to the cell at each offset of `targets`, in
    /// order, then zero the current cell. A zero cell leaves the tape as it is;
    /// otherwise an offset off the tape fails with `OutOfBounds` and nothing changes.
    pub fn copy_zero(&mut self, targets: &Vec<isize>) -> (r: Result<(), ExecError>)
        requires
            old(self).wf(),
        ensures
            final(self).wf(),
            match old(self)@.add_and_zero(targets@) {
                Some(t) => r == Ok::<(), ExecError>(()) && final(self)@ == t,
                None => r == Err::<(), ExecError>(ExecError::OutOfBounds) && final(self)@ == old(self)@,
            },
    {
        let value = self.data[self.pointer];
        if value == 0 {
            return Ok(());
        }
        let mut i: usize = 0;
        while i < targets.len()
            invariant
                self.wf(),
                self@ == old(self)@,
                value == old(self)@.current(),
                value != 0,
                i <= targets.len(),
                forall|k: int| 0 <= k < i ==> 0 <= #[trigger] targets@[k] + self.pointer < self.data@.len(),
            decreases targets.len() - i,
        {
            let t = targets[i];
            if t < 0 {
                let back: usize = (-(t + 1)) as usize;
                if back >= self.pointer {
                    assert(!old(self)@.targets_in_range(targets@)) by {
                        assert(!(0 <= targets@[i as int] + self.pointer));
                    }
                    return Err(ExecError::OutOfBounds);
                }
            } else if t as usize >= self.data.len() - self.pointer {
                assert(!old(self)@.targets_in_range(targets@)) by {
                    assert(!(targets@[i as int] + self.pointer < self.data@.len()));
                }
                return Err(ExecError::OutOfBounds);
            }
            i = i + 1;
        }
        let ghost start = self.data@;
        let mut i: usize = 0;
        while i < targets.len()
            invariant
                self.wf(),
                self.pointer == old(self).pointer,
                start == old(self)@.cells,
                old(self)@.targets_in_range(targets@),
                value == old(self)@.current(),
                i <= targets.len(),
                self.data@ == add_to_targets(start, self.pointer as int, targets@.take(i as int), value),
            decreases targets.len() - i,
        {
            proof {
                lemma_add_to_targets_len(start, self.pointer as int, targets@.take(i as int), value);
            }
            let t = targets[i];
            let n = self.data.len();
            assert(0 <= t + self.pointer < self.data@.len()) by {
                assert(old(self)@.targets_in_range(targets@));
                assert(0 <= targets@[i as int] + old(self)@.ptr < old(self)@.cells.len());
            }
            let at: usize = if t < 0 {
                self.pointer - ((-(t + 1)) as usize) - 1
            } else {
                self.pointer + t as usize
            };
            let v = wrapping_add(self.data[at], value as isize);
            self.data.set(at, v);
            assert(targets@.take(i + 1).drop_last() =~= targets@.take(i as int));
            i = i + 1;
        }
        assert(targets@.take(i as int) =~= targets@);
        self.data.set(self.pointer, 0);
        Ok(())
    }
}

} // verus!
