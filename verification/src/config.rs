//! Identity and repository configuration.

use vstd::prelude::*;

use crate::strmap::StrMap;
use crate::text::append_str;

verus! {

/// Who recorded an entry or commit: a git-style name and email.
#[derive(Debug, PartialEq, Eq)]
pub struct Identity {
    pub name: String,
    pub email: String,
}

/// `name <email>`, or just `name` when no email is set.
pub open spec fn label_of(name: Seq<char>, email: Seq<char>) -> Seq<char> {
    if email.len() == 0 {
        name
    } else {
        name + " <"@ + email + ">"@
    }
}

impl Identity {
    pub fn new(name: &str, email: &str) -> (id: Identity)
        ensures
            id.name@ == name@,
            id.email@ == email@,
    {
        Identity { name: name.to_owned(), email: email.to_owned() }
    }

    /// `name <email>`, or just `name` when no email is set.
    pub fn label(&self) -> (s: String)
        ensures
            s@ == label_of(self.name@, self.email@),
    {
        if self.email.as_str().is_empty() {
            self.name.clone()
        } else {
            let mut s = self.name.clone();
            append_str(&mut s, " <");
            append_str(&mut s, self.email.as_str());
            append_str(&mut s, ">");
            s
        }
    }

    pub fn copy(&self) -> (id: Identity)
        ensures
            id == *self,
    {
        Identity { name: self.name.clone(), email: self.email.clone() }
    }
}

impl Default for Identity {
    fn default() -> (id: Identity)
        ensures
            id.name@.len() == 0,
            id.email@.len() == 0,
    {
        Identity { name: String::new(), email: String::new() }
    }
}

/// A named remote and where it lives.
#[derive(Debug, PartialEq, Eq)]
pub struct Remote {
    pub url: String,
}

/// Repository configuration: the local identity and named remotes, kept in
/// name order.
#[derive(Debug, PartialEq, Eq)]
pub struct Config {
    pub user: Identity,
    pub remotes: StrMap<Remote>,
}

impl Default for Config {
    fn default() -> (c: Config)
        ensures
            c.user.name@.len() == 0,
            c.user.email@.len() == 0,
            c.remotes@ == Map::<Seq<char>, Remote>::empty(),
    {
        Config { user: Identity::default(), remotes: StrMap::new() }
    }
}

} // verus!
