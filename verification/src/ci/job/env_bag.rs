//! Where the commands of a job find the user, the group, the working
//! directory and the variables of the environment.
use vstd::prelude::*;
use crate::ci::job::env_parser::EnvMap;
use crate::names::names_view;
use crate::text::copy_strings;

verus! {

/// The user, group and working directory that commands run with, and the
/// values of the environment's variables.
pub trait EnvBag {
    /// The variables and their values.
    spec fn variables(&self) -> Map<Seq<char>, Seq<Seq<char>>>;

    fn user(&self) -> String;
    fn group(&self) -> String;
    fn pwd(&self) -> String;

    /// The values of the variable `key`, if it has any; reading changes no
    /// variable.
    fn read(&mut self, key: &str) -> (r: Option<Vec<String>>)
        ensures
            final(self).variables() == old(self).variables(),
            match r {
                Some(v) => old(self).variables().contains_key(key@) && old(self).variables()[key@] == names_view(v@),
                None => !old(self).variables().contains_key(key@),
            };
}

/// An environment given once and for all.
pub struct SimpleEnvBag {
    uid: String,
    gid: String,
    pwd: String,
    env: EnvMap,
}

impl SimpleEnvBag {
    /// Each variable occurs once.
    #[verifier::type_invariant]
    spec fn inv(self) -> bool {
        self.env.wf()
    }

    /// The user, group and working directory.
    pub closed spec fn settings(&self) -> (Seq<char>, Seq<char>, Seq<char>) {
        (self.uid@, self.gid@, self.pwd@)
    }

    /// An environment of the given user, group, directory and variables.
    pub fn new(uid: String, gid: String, pwd: String, env: EnvMap) -> (r: Self)
        requires
            env.wf(),
        ensures
            r.settings() == (uid@, gid@, pwd@),
            EnvBag::variables(&r) == env.map_view(),
    {
        Self { uid, gid, pwd, env }
    }
}

impl EnvBag for SimpleEnvBag {
    closed spec fn variables(&self) -> Map<Seq<char>, Seq<Seq<char>>> {
        self.env.map_view()
    }

    fn user(&self) -> (r: String)
        ensures
            r@ == self.settings().0,
    {
        self.uid.clone()
    }

    fn group(&self) -> (r: String)
        ensures
            r@ == self.settings().1,
    {
        self.gid.clone()
    }

    fn pwd(&self) -> (r: String)
        ensures
            r@ == self.settings().2,
    {
        self.pwd.clone()
    }

    fn read(&mut self, key: &str) -> (r: Option<Vec<String>>)
        ensures
            final(self).settings() == old(self).settings(),
    {
        proof {
            use_type_invariant(&*self);
        }
        match self.env.get(key) {
            Some(v) => Some(copy_strings(v.as_slice())),
            None => None,
        }
    }
}

} // verus!
