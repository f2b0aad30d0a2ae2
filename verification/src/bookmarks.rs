//! The bookmark store: named paths kept sorted by name, as an ordered
//! map would keep them. Reading and writing the bookmark file, and
//! testing paths against the file system, belong to the surrounding
//! tool; the store works on plain strings and validity flags handed in.

use vstd::prelude::*;

use crate::text::{join_with, lex_le, str_eq_str, str_lex_le};

verus! {

/// One bookmark: a name and the path it stands for.
pub struct BookmarkEntry {
    pub name: String,
    pub path: String,
}

/// The bookmark store, sorted by name.
pub struct Bookmarks {
    pub bookmarks: Vec<BookmarkEntry>,
}

/// The model of the store: the (name, path) view pairs in order.
pub open spec fn pair_views(s: Seq<BookmarkEntry>) -> Seq<(Seq<char>, Seq<char>)> {
    s.map_values(|e: BookmarkEntry| (e.name@, e.path@))
}

/// Ordered-map insertion: walks to the first name not below the new one;
/// an equal name has its path replaced, otherwise the pair is inserted
/// there. Inserting into a name-sorted sequence keeps it sorted.
pub open spec fn insert_pair(
    s: Seq<(Seq<char>, Seq<char>)>,
    name: Seq<char>,
    path: Seq<char>,
) -> Seq<(Seq<char>, Seq<char>)>
    decreases s.len(),
{
    if s.len() == 0 {
        seq![(name, path)]
    } else if s[0].0 == name {
        seq![(name, path)] + s.drop_first()
    } else if lex_le(name, s[0].0) {
        seq![(name, path)] + s
    } else {
        seq![s[0]] + insert_pair(s.drop_first(), name, path)
    }
}

/// The index of the first pair with the given name, or `-1`.
pub open spec fn find_pair(s: Seq<(Seq<char>, Seq<char>)>, name: Seq<char>) -> int
    decreases s.len(),
{
    if s.len() == 0 {
        -1
    } else if s[0].0 == name {
        0
    } else {
        let r = find_pair(s.drop_first(), name);
        if r == -1 {
            -1
        } else {
            r + 1
        }
    }
}

/// Removing the first pair with the given name, if any.
pub open spec fn remove_pair(
    s: Seq<(Seq<char>, Seq<char>)>,
    name: Seq<char>,
) -> Seq<(Seq<char>, Seq<char>)> {
    let i = find_pair(s, name);
    if i >= 0 {
        s.remove(i)
    } else {
        s
    }
}

/// The pairs kept when filtering by a validity flag per pair.
pub open spec fn filter_pairs(
    s: Seq<(Seq<char>, Seq<char>)>,
    keep: Seq<bool>,
) -> Seq<(Seq<char>, Seq<char>)>
    decreases s.len(),
{
    if s.len() == 0 || keep.len() < s.len() {
        Seq::<(Seq<char>, Seq<char>)>::empty()
    } else {
        let rest = filter_pairs(s.drop_first(), keep.drop_first());
        if keep[0] {
            seq![s[0]] + rest
        } else {
            rest
        }
    }
}

pub broadcast proof fn lemma_find_pair_bounds(s: Seq<(Seq<char>, Seq<char>)>, name: Seq<char>)
    ensures
        -1 <= #[trigger] find_pair(s, name) < s.len(),
        find_pair(s, name) >= 0 ==> s[find_pair(s, name)].0 == name,
        find_pair(s, name) >= 0 ==> forall|j: int| 0 <= j < find_pair(s, name) ==> s[j].0 != name,
        find_pair(s, name) == -1 ==> forall|j: int| 0 <= j < s.len() ==> s[j].0 != name,
    decreases s.len(),
{
    if s.len() > 0 && s[0].0 != name {
        let d = s.drop_first();
        lemma_find_pair_bounds(d, name);
        if find_pair(s, name) == -1 {
            assert forall|j: int| 0 <= j < s.len() implies s[j].0 != name by {
                if j > 0 {
                    assert(s[j] == d[j - 1]);
                }
            }
        } else {
            assert forall|j: int| 0 <= j < find_pair(s, name) implies s[j].0 != name by {
                if j > 0 {
                    assert(s[j] == d[j - 1]);
                }
            }
        }
    }
}

impl Bookmarks {
    /// Creates an empty bookmark store.
    pub fn new() -> (r: Bookmarks)
        ensures
            pair_views(r.bookmarks@) == Seq::<(Seq<char>, Seq<char>)>::empty(),
    {
        let r = Bookmarks { bookmarks: Vec::new() };
        proof {
            assert(pair_views(r.bookmarks@) =~= Seq::<(Seq<char>, Seq<char>)>::empty());
        }
        r
    }

    /// The number of bookmarks in the store.
    pub fn len(&self) -> (r: usize)
        ensures
            r == self.bookmarks@.len(),
    {
        self.bookmarks.len()
    }

    /// The stored entries, in name order.
    pub fn entries(&self) -> (r: &Vec<BookmarkEntry>)
        ensures
            pair_views(r@) == pair_views(self.bookmarks@),
    {
        &self.bookmarks
    }

    /// Puts a bookmark into the store at its name's position, replacing
    /// the path of an existing bookmark of the same name. Loading the
    /// bookmark file goes through this, one line at a time.
    pub fn insert_entry(&mut self, name: String, path: String)
        ensures
            pair_views(final(self).bookmarks@) == insert_pair(
                pair_views(old(self).bookmarks@),
                name@,
                path@,
            ),
    {
        let ghost pv = pair_views(self.bookmarks@);
        let n = self.bookmarks.len();
        let mut i: usize = 0;
        proof {
            assert(pv.skip(0) =~= pv);
            assert(pv.take(0) + insert_pair(pv, name@, path@) =~= insert_pair(pv, name@, path@));
        }
        while i < n
            invariant
                pv == pair_views(self.bookmarks@),
                self.bookmarks@ == old(self).bookmarks@,
                n == self.bookmarks@.len(),
                0 <= i <= n,
                insert_pair(pv, name@, path@) == pv.take(i as int) + insert_pair(
                    pv.skip(i as int),
                    name@,
                    path@,
                ),
                forall|k: int| 0 <= k < i ==> pv[k].0 != name@ && !lex_le(name@, pv[k].0),
            decreases n - i,
        {
            proof {
                assert(pv.skip(i as int)[0] == pv[i as int]);
                assert(pv[i as int] == (self.bookmarks@[i as int].name@, self.bookmarks@[i as int].path@));
                assert(pv.skip(i as int).drop_first() =~= pv.skip(i as int + 1));
            }
            if str_eq_str(self.bookmarks[i].name.as_str(), name.as_str()) {
                self.bookmarks.remove(i);
                self.bookmarks.insert(i, BookmarkEntry { name, path });
                proof {
                    assert(pair_views(final(self).bookmarks@) =~= pv.take(i as int) + (seq![
                        (name@, path@),
                    ] + pv.skip(i as int).drop_first()));
                }
                return ;
            }
            if str_lex_le(name.as_str(), self.bookmarks[i].name.as_str()) {
                self.bookmarks.insert(i, BookmarkEntry { name, path });
                proof {
                    assert(pair_views(final(self).bookmarks@) =~= pv.take(i as int) + (seq![
                        (name@, path@),
                    ] + pv.skip(i as int)));
                }
                return ;
            }
            proof {
                assert(pv.take(i + 1) =~= pv.take(i as int).push(pv[i as int]));
                assert(pv.take(i as int) + (seq![pv[i as int]] + insert_pair(
                    pv.skip(i as int + 1),
                    name@,
                    path@,
                )) =~= pv.take(i + 1) + insert_pair(pv.skip(i as int + 1), name@, path@));
            }
            i = i + 1;
        }
        proof {
            assert(pv.skip(n as int) =~= Seq::<(Seq<char>, Seq<char>)>::empty());
        }
        self.bookmarks.push(BookmarkEntry { name, path });
        proof {
            assert(pair_views(final(self).bookmarks@) =~= pv.take(n as int) + seq![
                (name@, path@),
            ]);
        }
    }

    /// Returns the path of the bookmark with the given name, or an error
    /// naming it when no such bookmark exists.
    pub fn get_path_by_name(&self, name: &str) -> (r: Result<String, String>)
        ensures
            ({
                let pv = pair_views(self.bookmarks@);
                (find_pair(pv, name@) >= 0 <==> r is Ok) && (r is Ok ==> r->Ok_0@ == pv[find_pair(
                    pv,
                    name@,
                )].1)
            }),
            r is Err ==> r->Err_0@ == "-- bookmark with name `"@ + name@ + "` does not exist"@,
    {
        let ghost pv = pair_views(self.bookmarks@);
        proof {
            lemma_find_pair_bounds(pv, name@);
        }
        let n = self.bookmarks.len();
        let mut i: usize = 0;
        while i < n
            invariant
                pv == pair_views(self.bookmarks@),
                n == self.bookmarks@.len(),
                0 <= i <= n,
                forall|k: int| 0 <= k < i ==> pv[k].0 != name@,
            decreases n - i,
        {
            proof {
                assert(pv[i as int] == (self.bookmarks@[i as int].name@, self.bookmarks@[i as int].path@));
            }
            if str_eq_str(self.bookmarks[i].name.as_str(), name) {
                proof {
                    lemma_find_pair_bounds(pv, name@);
                    assert(pv[i as int].0 == name@);
                    assert(find_pair(pv, name@) == i as int);
                }
                return Ok(self.bookmarks[i].path.as_str().to_owned());
            }
            i = i + 1;
        }
        proof {
            lemma_find_pair_bounds(pv, name@);
            if find_pair(pv, name@) >= 0 {
                assert(pv[find_pair(pv, name@)].0 == name@);
            }
        }
        let mut msg = String::from_str("-- bookmark with name `");
        msg.append(name);
        msg.append("` does not exist");
        Err(msg)
    }

    /// Adds a bookmark. The caller reports whether the path points to a
    /// directory; a duplicate name and an invalid path are errors, in
    /// that order, and leave the store unchanged.
    pub fn add_bookmark(&mut self, name: &String, path: &String, path_is_dir: bool) -> (r: Result<
        (),
        String,
    >)
        ensures
            ({
                let pv = pair_views(old(self).bookmarks@);
                if find_pair(pv, name@) >= 0 {
                    r is Err && r->Err_0@ == "-- bookmark with name `"@ + name@
                        + "` already exists"@ && pair_views(final(self).bookmarks@) == pv
                } else if !path_is_dir {
                    r is Err && r->Err_0@
                        == "-- provided path argument does not point to a valid directory"@
                        && pair_views(final(self).bookmarks@) == pv
                } else {
                    r is Ok && pair_views(final(self).bookmarks@) == insert_pair(
                        pv,
                        name@,
                        path@,
                    )
                }
            }),
    {
        let ghost pv = pair_views(self.bookmarks@);
        let existing = self.get_path_by_name(name.as_str());
        if existing.is_ok() {
            let mut msg = String::from_str("-- bookmark with name `");
            msg.append(name.as_str());
            msg.append("` already exists");
            return Err(msg);
        }
        if !path_is_dir {
            return Err(String::from_str(
                "-- provided path argument does not point to a valid directory",
            ));
        }
        self.insert_entry(name.as_str().to_owned(), path.as_str().to_owned());
        Ok(())
    }

    /// Removes the bookmark with the given name; asking for a name that
    /// is not stored is an error and leaves the store unchanged.
    pub fn remove_bookmark(&mut self, name: &String) -> (r: Result<(), String>)
        ensures
            ({
                let pv = pair_views(old(self).bookmarks@);
                (find_pair(pv, name@) >= 0 <==> r is Ok) && pair_views(final(self).bookmarks@)
                    == remove_pair(pv, name@)
            }),
            r is Err ==> r->Err_0@ == "-- bookmark requested to delete does not exist"@,
    {
        let ghost pv = pair_views(self.bookmarks@);
        proof {
            lemma_find_pair_bounds(pv, name@);
        }
        let n = self.bookmarks.len();
        let mut i: usize = 0;
        while i < n
            invariant
                pv == pair_views(self.bookmarks@),
                self.bookmarks@ == old(self).bookmarks@,
                n == self.bookmarks@.len(),
                0 <= i <= n,
                forall|k: int| 0 <= k < i ==> pv[k].0 != name@,
            decreases n - i,
        {
            proof {
                assert(pv[i as int] == (self.bookmarks@[i as int].name@, self.bookmarks@[i as int].path@));
            }
            if str_eq_str(self.bookmarks[i].name.as_str(), name.as_str()) {
                proof {
                    lemma_find_pair_bounds(pv, name@);
                    assert(pv[i as int].0 == name@);
                    assert(find_pair(pv, name@) == i as int);
                }
                self.bookmarks.remove(i);
                proof {
                    assert(pair_views(final(self).bookmarks@) =~= pv.remove(i as int));
                }
                return Ok(());
            }
            i = i + 1;
        }
        proof {
            lemma_find_pair_bounds(pv, name@);
            if find_pair(pv, name@) >= 0 {
                assert(pv[find_pair(pv, name@)].0 == name@);
            }
        }
        Err(String::from_str("-- bookmark requested to delete does not exist"))
    }

    /// Removes the bookmarks whose validity flag is false; the caller
    /// hands one flag per entry, in order.
    pub fn remove_invalid_paths(&mut self, valid: &Vec<bool>)
        requires
            valid@.len() == old(self).bookmarks@.len(),
        ensures
            pair_views(final(self).bookmarks@) == filter_pairs(
                pair_views(old(self).bookmarks@),
                valid@,
            ),
    {
        let ghost pv = pair_views(self.bookmarks@);
        let n = self.bookmarks.len();
        let mut kept: Vec<BookmarkEntry> = Vec::new();
        let mut i: usize = 0;
        proof {
            assert(pv.skip(0) =~= pv);
            assert(valid@.skip(0) =~= valid@);
            assert(pair_views(kept@) =~= Seq::<(Seq<char>, Seq<char>)>::empty());
        }
        while i < n
            invariant
                pv == pair_views(self.bookmarks@),
                self.bookmarks@ == old(self).bookmarks@,
                n == self.bookmarks@.len(),
                valid@.len() == n,
                0 <= i <= n,
                filter_pairs(pv, valid@) == pair_views(kept@) + filter_pairs(
                    pv.skip(i as int),
                    valid@.skip(i as int),
                ),
            decreases n - i,
        {
            proof {
                assert(pv.skip(i as int)[0] == pv[i as int]);
                assert(pv[i as int] == (self.bookmarks@[i as int].name@, self.bookmarks@[i as int].path@));
                assert(pv.skip(i as int).drop_first() =~= pv.skip(i as int + 1));
                assert(valid@.skip(i as int).drop_first() =~= valid@.skip(i as int + 1));
                assert(valid@.skip(i as int)[0] == valid@[i as int]);
            }
            if valid[i] {
                let ghost old_kept = pair_views(kept@);
                let e = BookmarkEntry {
                    name: self.bookmarks[i].name.as_str().to_owned(),
                    path: self.bookmarks[i].path.as_str().to_owned(),
                };
                kept.push(e);
                proof {
                    assert(pair_views(kept@) =~= old_kept.push(pv[i as int]));
                    assert(old_kept + (seq![pv[i as int]] + filter_pairs(
                        pv.skip(i as int + 1),
                        valid@.skip(i as int + 1),
                    )) =~= old_kept.push(pv[i as int]) + filter_pairs(
                        pv.skip(i as int + 1),
                        valid@.skip(i as int + 1),
                    ));
                }
            }
            i = i + 1;
        }
        proof {
            assert(pv.skip(n as int) =~= Seq::<(Seq<char>, Seq<char>)>::empty());
            assert(valid@.skip(n as int) =~= Seq::<bool>::empty());
        }
        self.bookmarks = kept;
    }

    /// The names of the bookmarks whose validity flag is true, joined by
    /// single spaces (for shell completions); one flag per entry.
    pub fn get_bookmark_names(&self, valid: &Vec<bool>) -> (r: String)
        requires
            valid@.len() == self.bookmarks@.len(),
        ensures
            r@ == join_with(
                filter_pairs(pair_views(self.bookmarks@), valid@).map_values(
                    |p: (Seq<char>, Seq<char>)| p.0,
                ),
                " "@,
            ),
    {
        let ghost pv = pair_views(self.bookmarks@);
        let n = self.bookmarks.len();
        let mut names: Vec<String> = Vec::new();
        let mut i: usize = 0;
        proof {
            assert(pv.skip(0) =~= pv);
            assert(valid@.skip(0) =~= valid@);
            assert(names@.map_values(|s: String| s@) =~= Seq::<Seq<char>>::empty());
        }
        while i < n
            invariant
                pv == pair_views(self.bookmarks@),
                n == self.bookmarks@.len(),
                valid@.len() == n,
                0 <= i <= n,
                filter_pairs(pv, valid@).map_values(|p: (Seq<char>, Seq<char>)| p.0)
                    == names@.map_values(|s: String| s@) + filter_pairs(
                    pv.skip(i as int),
                    valid@.skip(i as int),
                ).map_values(|p: (Seq<char>, Seq<char>)| p.0),
            decreases n - i,
        {
            proof {
                assert(pv.skip(i as int)[0] == pv[i as int]);
                assert(pv[i as int] == (self.bookmarks@[i as int].name@, self.bookmarks@[i as int].path@));
                assert(pv.skip(i as int).drop_first() =~= pv.skip(i as int + 1));
                assert(valid@.skip(i as int).drop_first() =~= valid@.skip(i as int + 1));
                assert(valid@.skip(i as int)[0] == valid@[i as int]);
            }
            if valid[i] {
                let ghost old_names = names@.map_values(|s: String| s@);
                let name = self.bookmarks[i].name.as_str().to_owned();
                names.push(name);
                proof {
                    assert(names@.map_values(|s: String| s@) =~= old_names.push(pv[i as int].0));
                    let tail = filter_pairs(pv.skip(i as int + 1), valid@.skip(i as int + 1));
                    assert((seq![pv[i as int]] + tail).map_values(
                        |p: (Seq<char>, Seq<char>)| p.0,
                    ) =~= seq![pv[i as int].0] + tail.map_values(|p: (Seq<char>, Seq<char>)| p.0));
                    assert(old_names + (seq![pv[i as int].0] + tail.map_values(
                        |p: (Seq<char>, Seq<char>)| p.0,
                    )) =~= old_names.push(pv[i as int].0) + tail.map_values(
                        |p: (Seq<char>, Seq<char>)| p.0,
                    ));
                }
            }
            i = i + 1;
        }
        proof {
            assert(pv.skip(n as int) =~= Seq::<(Seq<char>, Seq<char>)>::empty());
            assert(valid@.skip(n as int) =~= Seq::<bool>::empty());
            assert(filter_pairs(Seq::<(Seq<char>, Seq<char>)>::empty(), Seq::<bool>::empty()).map_values(
                |p: (Seq<char>, Seq<char>)| p.0,
            ) =~= Seq::<Seq<char>>::empty());
        }
        crate::text::join_strings(&names, " ")
    }
}

} // verus!
