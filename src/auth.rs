//! Username / password pairs: the first login with a name registers it,
//! later logins with that name must repeat its password.
use vstd::prelude::*;

verus! {

/// The map from names to passwords that the pairs `s` describe.
pub open spec fn to_map(s: Seq<(String, String)>) -> Map<Seq<char>, Seq<char>>
    decreases s.len(),
{
    if s.len() == 0 {
        Map::empty()
    } else {
        to_map(s.drop_last()).insert(s.last().0@, s.last().1@)
    }
}

/// No name occurs twice in `s`.
pub open spec fn unique_names(s: Seq<(String, String)>) -> bool {
    forall|i: int, j: int| 0 <= i < j < s.len() ==> (#[trigger] s[i]).0@ != (#[trigger] s[j]).0@
}

proof fn lemma_to_map_at(s: Seq<(String, String)>, j: int)
    requires
        unique_names(s),
        0 <= j < s.len(),
    ensures
        to_map(s).contains_key(s[j].0@),
        to_map(s)[s[j].0@] == s[j].1@,
    decreases s.len(),
{
    if j < s.len() - 1 {
        let t = s.drop_last();
        assert(t[j] == s[j]);
        assert(s[j].0@ != s[s.len() - 1].0@);
        lemma_to_map_at(t, j);
    }
}

proof fn lemma_to_map_absent(s: Seq<(String, String)>, k: Seq<char>)
    requires
        forall|j: int| 0 <= j < s.len() ==> (#[trigger] s[j]).0@ != k,
    ensures
        !to_map(s).contains_key(k),
    decreases s.len(),
{
    if s.len() > 0 {
        let t = s.drop_last();
        assert forall|j: int| 0 <= j < t.len() implies (#[trigger] t[j]).0@ != k by {
            assert(t[j] == s[j]);
        }
        lemma_to_map_absent(t, k);
    }
}

/// Registered users and their passwords.
pub struct UserAuth {
    users: Vec<(String, String)>,
}

impl View for UserAuth {
    type V = Map<Seq<char>, Seq<char>>;

    closed spec fn view(&self) -> Map<Seq<char>, Seq<char>> {
        to_map(self.users@)
    }
}

impl UserAuth {
    pub closed spec fn wf(&self) -> bool {
        unique_names(self.users@)
    }

    /// No users yet.
    pub fn new() -> (r: Self)
        ensures
            r.wf(),
            r@ == Map::<Seq<char>, Seq<char>>::empty(),
    {
        UserAuth { users: Vec::new() }
    }

    /// Logs `username` in with `password`. An unknown name is registered
    /// with that password and accepted; a known name is accepted only with
    /// its registered password. Returns the name when accepted.
    pub fn is_valid_or_insert(&mut self, username: String, password: String) -> (r: Option<String>)
        requires
            old(self).wf(),
        ensures
            final(self).wf(),
            !old(self)@.contains_key(username@) ==> {
                &&& final(self)@ == old(self)@.insert(username@, password@)
                &&& r matches Some(name) && name@ == username@
            },
            old(self)@.contains_key(username@) ==> {
                &&& final(self)@ == old(self)@
                &&& old(self)@[username@] == password@ ==> (r matches Some(name) && name@ == username@)
                &&& old(self)@[username@] != password@ ==> r is None
            },
    {
        let mut i: usize = 0;
        while i < self.users.len()
            invariant
                i <= self.users@.len(),
                self.wf(),
                forall|j: int| 0 <= j < i ==> (#[trigger] self.users@[j]).0@ != username@,
            decreases self.users@.len() - i,
        {
            if self.users[i].0 == username {
                proof {
                    lemma_to_map_at(self.users@, i as int);
                }
                if self.users[i].1 == password {
                    return Some(username);
                } else {
                    return None;
                }
            }
            i = i + 1;
        }
        proof {
            lemma_to_map_absent(self.users@, username@);
        }
        let name = username.clone();
        let ghost s0 = self.users@;
        self.users.push((username, password));
        proof {
            assert(self.users@.drop_last() == s0);
            assert forall|a: int, b: int| 0 <= a < b < self.users@.len() implies (#[trigger] self.users@[a]).0@
                != (#[trigger] self.users@[b]).0@ by {
                if b == s0.len() {
                    assert(self.users@[a] == s0[a]);
                } else {
                    assert(self.users@[a] == s0[a]);
                    assert(self.users@[b] == s0[b]);
                }
            }
        }
        Some(name)
    }
}

} // verus!
