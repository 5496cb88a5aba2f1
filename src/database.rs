//! The credential store: one record per username.
use vstd::prelude::*;
use vstd::string::StringExecFns;

verus! {

/// A stored credential: the username, the digest of its secret, and a public key kept for
/// a key-based login that the protocol does not offer yet.
#[derive(Debug, Clone)]
pub struct User {
    pub username: String,
    pub password: String,
    pub pubkey: String,
}

pub struct UserView {
    pub username: Seq<char>,
    pub password: Seq<char>,
    pub pubkey: Seq<char>,
}

impl View for User {
    type V = UserView;

    open spec fn view(&self) -> UserView {
        UserView { username: self.username@, password: self.password@, pubkey: self.pubkey@ }
    }
}

impl User {
    pub fn _new(username: String, password: String, pubkey: String) -> (r: User)
        ensures
            r@ == (UserView { username: username@, password: password@, pubkey: pubkey@ }),
    {
        User { username, password, pubkey }
    }
}

/// The records of `s` by username; a later record of a name replaces an earlier one.
pub open spec fn by_name(s: Seq<User>) -> Map<Seq<char>, UserView>
    decreases s.len(),
{
    if s.len() == 0 {
        Map::empty()
    } else {
        by_name(s.drop_last()).insert(s.last().username@, s.last()@)
    }
}

/// No two records of `s` have the same username.
pub open spec fn names_distinct(s: Seq<User>) -> bool {
    forall|i: int, j: int|
        0 <= i < s.len() && 0 <= j < s.len() && i != j ==> #[trigger] s[i].username@
            != #[trigger] s[j].username@
}

proof fn lemma_by_name_has(s: Seq<User>, k: Seq<char>)
    ensures
        by_name(s).contains_key(k) <==> exists|i: int| 0 <= i < s.len() && s[i].username@ == k,
    decreases s.len(),
{
    if s.len() > 0 {
        lemma_by_name_has(s.drop_last(), k);
        if by_name(s.drop_last()).contains_key(k) {
            let i = choose|i: int| 0 <= i < s.drop_last().len() && s.drop_last()[i].username@ == k;
            assert(s[i].username@ == k);
        }
        if exists|i: int| 0 <= i < s.len() && s[i].username@ == k {
            let i = choose|i: int| 0 <= i < s.len() && s[i].username@ == k;
            if i < s.len() - 1 {
                assert(s.drop_last()[i].username@ == k);
            }
        }
    }
}

proof fn lemma_by_name_at(s: Seq<User>, i: int)
    requires
        names_distinct(s),
        0 <= i < s.len(),
    ensures
        by_name(s).contains_key(s[i].username@),
        by_name(s)[s[i].username@] == s[i]@,
    decreases s.len(),
{
    if i < s.len() - 1 {
        lemma_by_name_at(s.drop_last(), i);
        assert(s.drop_last()[i] == s[i]);
    }
}

proof fn lemma_by_name_remove(s: Seq<User>, i: int)
    requires
        names_distinct(s),
        0 <= i < s.len(),
    ensures
        by_name(s.remove(i)) == by_name(s).remove(s[i].username@),
        names_distinct(s.remove(i)),
    decreases s.len(),
{
    let k = s[i].username@;
    let d = s.drop_last();
    if i == s.len() - 1 {
        assert(s.remove(i) =~= d);
        lemma_by_name_has(d, k);
        assert(by_name(s).remove(k) =~= by_name(d));
    } else {
        lemma_by_name_remove(d, i);
        assert(d[i] == s[i]);
        assert(s.remove(i) =~= d.remove(i).push(s.last()));
        assert(s.remove(i).drop_last() =~= d.remove(i));
        assert(s.last().username@ != k);
        assert(by_name(s.remove(i)) =~= by_name(s).remove(k));
    }
}

/// All the credentials, one per username.
pub struct Database {
    users: Vec<User>,
}

impl View for Database {
    type V = Map<Seq<char>, UserView>;

    closed spec fn view(&self) -> Map<Seq<char>, UserView> {
        by_name(self.users@)
    }
}

impl Database {
    pub closed spec fn wf(&self) -> bool {
        names_distinct(self.users@)
    }

    /// An empty store.
    pub fn new() -> (r: Database)
        ensures
            r.wf(),
            r@ == Map::<Seq<char>, UserView>::empty(),
    {
        let r = Database { users: Vec::new() };
        proof {
            assert(by_name(r.users@) == Map::<Seq<char>, UserView>::empty());
        }
        r
    }

    fn find(&self, username: &str) -> (r: Option<usize>)
        requires
            self.wf(),
        ensures
            match r {
                Some(i) => i < self.users@.len() && self.users@[i as int].username@ == username@,
                None => !self@.contains_key(username@),
            },
    {
        let target = String::from_str(username);
        let mut i: usize = 0;
        while i < self.users.len()
            invariant
                target@ == username@,
                i <= self.users@.len(),
                forall|j: int| 0 <= j < i ==> self.users@[j].username@ != username@,
            decreases self.users.len() - i,
        {
            if self.users[i].username == target {
                return Some(i);
            }
            i = i + 1;
        }
        proof {
            lemma_by_name_has(self.users@, username@);
        }
        None
    }

    /// The record of `username`, if there is one.
    pub fn get_user(&self, username: &str) -> (r: Option<&User>)
        requires
            self.wf(),
        ensures
            r is Some <==> self@.contains_key(username@),
            r matches Some(u) ==> u@ == self@[username@],
    {
        match self.find(username) {
            Some(i) => {
                proof {
                    lemma_by_name_at(self.users@, i as int);
                }
                Some(&self.users[i])
            },
            None => None,
        }
    }

    /// Adds a record for `username`, unless the name already has one.
    pub fn add_user(&mut self, username: String, password: String, pubkey: String) -> (r: Result<
        (),
        String,
    >)
        requires
            old(self).wf(),
        ensures
            final(self).wf(),
            old(self)@.contains_key(username@) ==> r is Err && final(self)@ == old(self)@,
            !old(self)@.contains_key(username@) ==> r is Ok && final(self)@ == old(self)@.insert(
                username@,
                UserView { username: username@, password: password@, pubkey: pubkey@ },
            ),
    {
        if let Some(i) = self.find(username.as_str()) {
            proof {
                lemma_by_name_at(self.users@, i as int);
            }
            return Err(String::from_str("L'utilisateur existe déjà"));
        }
        let user = User { username, password, pubkey };
        self.push_new(user);
        Ok(())
    }

    fn push_new(&mut self, user: User)
        requires
            old(self).wf(),
            !old(self)@.contains_key(user.username@),
        ensures
            final(self).wf(),
            final(self)@ == old(self)@.insert(user.username@, user@),
    {
        let ghost s = self.users@;
        self.users.push(user);
        proof {
            lemma_by_name_has(s, user.username@);
            assert(self.users@.drop_last() =~= s);
            assert forall|i: int, j: int|
                0 <= i < self.users@.len() && 0 <= j < self.users@.len() && i != j implies #[trigger] self.users@[i].username@
                    != #[trigger] self.users@[j].username@ by {
                if i < s.len() && j < s.len() {
                    assert(self.users@[i] == s[i] && self.users@[j] == s[j]);
                } else if i < s.len() {
                    assert(self.users@[i] == s[i]);
                } else {
                    assert(self.users@[j] == s[j]);
                }
            }
        }
    }

    /// Removes the record of `username`, if there is one.
    pub fn _remove_user(&mut self, username: &str)
        requires
            old(self).wf(),
        ensures
            final(self).wf(),
            final(self)@ == old(self)@.remove(username@),
    {
        match self.find(username) {
            Some(i) => {
                let ghost s = self.users@;
                self.users.remove(i);
                proof {
                    lemma_by_name_remove(s, i as int);
                }
            },
            None => {
                proof {
                    assert(self@.remove(username@) =~= self@);
                }
            },
        }
    }

    /// Merges records read from storage into the store: each record replaces the one of the
    /// same username, and a later record replaces an earlier one.
    pub fn load_users(&mut self, loaded: Vec<User>)
        requires
            old(self).wf(),
        ensures
            final(self).wf(),
            final(self)@ == old(self)@.union_prefer_right(by_name(loaded@)),
    {
        let mut loaded = loaded;
        let ghost all = loaded@;
        let mut rest: Vec<User> = Vec::new();
        // take the records from the back so that each can be moved out cheaply
        while loaded.len() > 0
            invariant
                loaded@.len() <= all.len(),
                loaded@ == all.take(loaded@.len() as int),
                rest@.len() + loaded@.len() == all.len(),
                forall|j: int| 0 <= j < rest@.len() ==> #[trigger] rest@[j] == all[all.len() - 1 - j],
            decreases loaded.len(),
        {
            let u = loaded.pop().unwrap();
            rest.push(u);
            proof {
                assert(loaded@ =~= all.take(loaded@.len() as int));
            }
        }
        let ghost start = self@;
        while rest.len() > 0
            invariant
                self.wf(),
                rest@.len() <= all.len(),
                forall|j: int| 0 <= j < rest@.len() ==> #[trigger] rest@[j] == all[all.len() - 1 - j],
                self@ == start.union_prefer_right(by_name(all.take(all.len() - rest@.len()))),
            decreases rest.len(),
        {
            let ghost n = all.len() - rest@.len();
            let u = rest.pop().unwrap();
            proof {
                assert(u == all[n]);
                assert(all.take(n + 1).drop_last() =~= all.take(n));
                assert(all.take(n + 1).last() == u);
            }
            self.upsert(u);
            proof {
                assert(self@ =~= start.union_prefer_right(by_name(all.take(n + 1))));
            }
        }
        proof {
            assert(all.take(all.len() as int) =~= all);
        }
    }

    fn upsert(&mut self, user: User)
        requires
            old(self).wf(),
        ensures
            final(self).wf(),
            final(self)@ == old(self)@.insert(user.username@, user@),
    {
        if let Some(i) = self.find(user.username.as_str()) {
            let ghost s = self.users@;
            self.users.remove(i);
            proof {
                lemma_by_name_remove(s, i as int);
                assert(self@ == old(self)@.remove(user.username@));
            }
        }
        self.push_new(user);
        proof {
            assert(final(self)@ =~= old(self)@.insert(user.username@, user@));
        }
    }

    /// The records, one per username, for writing to storage.
    pub fn users(&self) -> (r: &Vec<User>)
        requires
            self.wf(),
        ensures
            by_name(r@) == self@,
            names_distinct(r@),
    {
        &self.users
    }
}

} // verus!
