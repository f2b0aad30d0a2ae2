//! The directory stack: the pure logic of the per-shell stack of visited
//! paths. Reading and writing the stack file, and testing paths against
//! the file system, belong to the surrounding tool; the stack itself
//! works on plain path strings and validity flags handed in.

use vstd::prelude::*;

use crate::text::{append_dec, dec_str_of};

verus! {

/// The directory stack of one shell process.
pub struct Stack {
    pub pid: u32,
    pub stack: Vec<String>,
}

/// The views of a list of path strings.
pub open spec fn path_views(s: Seq<String>) -> Seq<Seq<char>> {
    s.map_values(|p: String| p@)
}

/// The entries kept when filtering by a validity flag per entry.
pub open spec fn filter_by_flags(s: Seq<Seq<char>>, keep: Seq<bool>) -> Seq<Seq<char>>
    decreases s.len(),
{
    if s.len() == 0 || keep.len() < s.len() {
        Seq::<Seq<char>>::empty()
    } else {
        let rest = filter_by_flags(s.drop_first(), keep.drop_first());
        if keep[0] {
            seq![s[0]] + rest
        } else {
            rest
        }
    }
}

/// The entries kept by de-duplication: each path survives only in its
/// last occurrence, and survivors keep their relative order.
pub open spec fn dedup_views(s: Seq<Seq<char>>) -> Seq<Seq<char>>
    decreases s.len(),
{
    if s.len() == 0 {
        Seq::<Seq<char>>::empty()
    } else if s.drop_first().contains(s[0]) {
        dedup_views(s.drop_first())
    } else {
        seq![s[0]] + dedup_views(s.drop_first())
    }
}

impl Stack {
    /// Builds the stack of one shell from its process id and the entries
    /// read from its stack file, oldest first.
    pub fn new(process_id: u32, entries: Vec<String>) -> (r: Stack)
        ensures
            r.pid == process_id,
            path_views(r.stack@) == path_views(entries@),
    {
        Stack { pid: process_id, stack: entries }
    }

    /// The process id this stack belongs to.
    pub fn process_id(&self) -> (r: u32)
        ensures
            r == self.pid,
    {
        self.pid
    }

    /// The stack's entries, oldest first.
    pub fn entries(&self) -> (r: &Vec<String>)
        ensures
            path_views(r@) == path_views(self.stack@),
    {
        &self.stack
    }

    /// The number of entries on the stack.
    pub fn len(&self) -> (r: usize)
        ensures
            r == self.stack@.len(),
    {
        self.stack.len()
    }

    /// Pushes an (already absolute) path onto the stack.
    pub fn push_entry(&mut self, path: String) -> (r: &Vec<String>)
        ensures
            final(self).pid == old(self).pid,
            final(self).stack@ == old(self).stack@.push(path),
            path_views(r@) == path_views(final(self).stack@),
    {
        self.stack.push(path);
        &self.stack
    }

    /// Pops entries from the stack and returns the path to move to.
    ///
    /// `None` pops one entry; `Some(0)` or a count above the stack's
    /// length pops everything. The returned path is the oldest of the
    /// popped entries; an empty stack is an error and stays empty.
    pub fn pop_entry(&mut self, num_entries: Option<usize>) -> (r: Result<String, String>)
        ensures
            final(self).pid == old(self).pid,
            old(self).stack@.len() == 0 ==> r is Err && final(self).stack@ == old(self).stack@,
            r is Err ==> r->Err_0@ == "-- pop failed to retrieve item from stack, it might be empty"@,
            old(self).stack@.len() > 0 ==> ({
                let asked = match num_entries {
                    Some(k) => k as int,
                    None => 1,
                };
                let n = if asked == 0 || asked > old(self).stack@.len() {
                    old(self).stack@.len() as int
                } else {
                    asked
                };
                r is Ok && r->Ok_0@ == old(self).stack@[old(self).stack@.len() - n]@ && final(self).stack@ == old(self).stack@.take(old(self).stack@.len() - n)
            }),
    {
        let len = self.stack.len();
        let mut num: usize = match num_entries {
            Some(k) => k,
            None => 1,
        };
        if num == 0 || num > len {
            num = len;
        }
        if len == 0 {
            return Err(String::from_str(
                "-- pop failed to retrieve item from stack, it might be empty",
            ));
        }
        let entry = self.stack.remove(len - num);
        self.stack.truncate(len - num);
        proof {
            assert(final(self).stack@ =~= old(self).stack@.take(
                old(self).stack@.len() - num as int,
            ));
        }
        Ok(entry)
    }

    /// Returns the path `entry_number` steps from the top of the stack
    /// without removing it; counting starts at 0 for the newest entry.
    pub fn get_entry_by_number(&self, entry_number: usize) -> (r: Result<&String, String>)
        ensures
            entry_number < self.stack@.len() <==> r is Ok,
            r is Ok ==> r->Ok_0@ == self.stack@[self.stack@.len() - 1 - entry_number]@,
            r is Err ==> r->Err_0@ == "-- requested item ("@ + dec_str_of(entry_number as int)
                + ") out of bounds (stack.len() = "@ + dec_str_of(self.stack@.len() as int)
                + ")"@,
    {
        let len = self.stack.len();
        if entry_number >= len {
            let mut msg = String::from_str("-- requested item (");
            append_dec(&mut msg, entry_number);
            msg.append(") out of bounds (stack.len() = ");
            append_dec(&mut msg, len);
            msg.append(")");
            return Err(msg);
        }
        Ok(&self.stack[len - 1 - entry_number])
    }

    /// Rotates the stack so that the entry `entry_number` steps from the
    /// top becomes the newest entry; 0 leaves it unchanged, a number at
    /// or beyond the stack's length is an error.
    pub fn rotate_stack(&mut self, entry_number: usize) -> (r: Result<(), String>)
        ensures
            final(self).pid == old(self).pid,
            entry_number == 0 ==> r is Ok && final(self).stack@ == old(self).stack@,
            0 < entry_number < old(self).stack@.len() ==> r is Ok && final(self).stack@ == old(self).stack@.skip(old(self).stack@.len() - entry_number) + old(self).stack@.take(
                old(self).stack@.len() - entry_number,
            ),
            entry_number >= old(self).stack@.len() && entry_number != 0 ==> r is Err && final(self).stack@ == old(self).stack@,
            r is Err ==> r->Err_0@ == "-- number to rotate is greater than the stacks length"@,
    {
        if entry_number == 0 {
            return Ok(());
        }
        let len = self.stack.len();
        if len <= entry_number {
            return Err(String::from_str(
                "-- number to rotate is greater than the stacks length",
            ));
        }
        let mut tail = self.stack.split_off(len - entry_number);
        tail.append(&mut self.stack);
        self.stack = tail;
        proof {
            assert(final(self).stack@ =~= old(self).stack@.skip(
                old(self).stack@.len() - entry_number,
            ) + old(self).stack@.take(old(self).stack@.len() - entry_number));
        }
        Ok(())
    }

    /// Removes the entries whose validity flag is false; the caller hands
    /// one flag per entry, in order.
    pub fn cleanup_stack(&mut self, valid: &Vec<bool>)
        requires
            valid@.len() == old(self).stack@.len(),
        ensures
            final(self).pid == old(self).pid,
            path_views(final(self).stack@) == filter_by_flags(
                path_views(old(self).stack@),
                valid@,
            ),
    {
        let n = self.stack.len();
        let mut kept: Vec<String> = Vec::new();
        let mut i: usize = 0;
        proof {
            assert(path_views(self.stack@).skip(0) =~= path_views(self.stack@));
            assert(valid@.skip(0) =~= valid@);
            assert(path_views(kept@) =~= Seq::<Seq<char>>::empty());
        }
        while i < n
            invariant
                n == self.stack@.len(),
                valid@.len() == n,
                self.stack@ == old(self).stack@,
                0 <= i <= n,
                filter_by_flags(path_views(old(self).stack@), valid@) == path_views(kept@)
                    + filter_by_flags(
                    path_views(self.stack@).skip(i as int),
                    valid@.skip(i as int),
                ),
            decreases n - i,
        {
            let ghost pv = path_views(self.stack@);
            proof {
                assert(pv.skip(i as int)[0] == pv[i as int]);
                assert(pv[i as int] == self.stack@[i as int]@);
                assert(pv.skip(i as int).drop_first() =~= pv.skip(i as int + 1));
                assert(valid@.skip(i as int).drop_first() =~= valid@.skip(i as int + 1));
                assert(valid@.skip(i as int)[0] == valid@[i as int]);
            }
            if valid[i] {
                let ghost old_kept = path_views(kept@);
                let e = self.stack[i].as_str().to_owned();
                kept.push(e);
                proof {
                    assert(path_views(kept@) =~= old_kept.push(pv[i as int]));
                    assert(old_kept + (seq![pv[i as int]] + filter_by_flags(
                        pv.skip(i as int + 1),
                        valid@.skip(i as int + 1),
                    )) =~= old_kept.push(pv[i as int]) + filter_by_flags(
                        pv.skip(i as int + 1),
                        valid@.skip(i as int + 1),
                    ));
                }
            }
            i = i + 1;
        }
        proof {
            assert(path_views(self.stack@).skip(n as int) =~= Seq::<Seq<char>>::empty());
            assert(valid@.skip(n as int) =~= Seq::<bool>::empty());
        }
        self.stack = kept;
    }

    /// Keeps only the newest occurrence of each path, preserving the
    /// relative order of the survivors.
    pub fn dedup_stack(&mut self)
        ensures
            final(self).pid == old(self).pid,
            path_views(final(self).stack@) == dedup_views(path_views(old(self).stack@)),
    {
        let mut deduped: Vec<String> = Vec::new();
        proof {
            assert(path_views(deduped@) =~= Seq::<Seq<char>>::empty());
        }
        while self.stack.len() > 0
            invariant
                self.pid == old(self).pid,
                dedup_views(path_views(old(self).stack@)) == path_views(deduped@) + dedup_views(
                    path_views(self.stack@),
                ),
            decreases self.stack@.len(),
        {
            let ghost pv = path_views(self.stack@);
            let entry = self.stack.remove(0);
            proof {
                assert(path_views(self.stack@) =~= pv.drop_first());
            }
            let mut found = false;
            let mut j: usize = 0;
            while j < self.stack.len()
                invariant
                    0 <= j <= self.stack@.len(),
                    found == exists|k: int|
                        0 <= k < j && path_views(self.stack@)[k] == entry@,
                decreases self.stack@.len() - j,
            {
                proof {
                    assert(path_views(self.stack@)[j as int] == self.stack@[j as int]@);
                }
                if crate::text::str_eq_str(self.stack[j].as_str(), entry.as_str()) {
                    found = true;
                }
                j = j + 1;
            }
            proof {
                assert(found == path_views(self.stack@).contains(entry@)) by {
                    if path_views(self.stack@).contains(entry@) {
                        let k = choose|k: int|
                            0 <= k < path_views(self.stack@).len() && path_views(
                                self.stack@,
                            )[k] == entry@;
                        assert(0 <= k < self.stack@.len());
                    }
                }
                assert(pv[0] == entry@);
            }
            if !found {
                let ghost old_d = path_views(deduped@);
                deduped.push(entry);
                proof {
                    assert(path_views(deduped@) =~= old_d.push(entry@));
                    assert(old_d + (seq![entry@] + dedup_views(path_views(self.stack@)))
                        =~= old_d.push(entry@) + dedup_views(path_views(self.stack@)));
                }
            }
        }
        proof {
            assert(path_views(self.stack@) =~= Seq::<Seq<char>>::empty());
        }
        self.stack = deduped;
    }
}

} // verus!
