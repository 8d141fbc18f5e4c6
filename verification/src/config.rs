//! The shell's environment: the variables it passes to programs and the
//! `PATH` lookup of programs.

use vstd::prelude::*;
use crate::text::{NulError, check_no_nul, nul_byte_offset};

verus! {

/// Why the environment could not answer.
#[derive(Debug, PartialEq)]
pub enum ConfigError {
    /// The variable named is not set.
    EnvKeyNotFound(String),
    /// No directory of `PATH` holds an executable of that name.
    CommandNotFound,
}

/// The value of a [`ConfigError`].
pub enum SpecConfigError {
    EnvKeyNotFound(Seq<char>),
    CommandNotFound,
}

impl View for ConfigError {
    type V = SpecConfigError;

    open spec fn view(&self) -> SpecConfigError {
        match self {
            ConfigError::EnvKeyNotFound(k) => SpecConfigError::EnvKeyNotFound(k@),
            ConfigError::CommandNotFound => SpecConfigError::CommandNotFound,
        }
    }
}

/// The value of a lookup result.
pub open spec fn path_result_view(r: Result<String, ConfigError>) -> Result<Seq<char>, SpecConfigError> {
    match r {
        Ok(s) => Ok(s@),
        Err(e) => Err(e@),
    }
}

/// The environment of the shell: variables with distinct names, in the
/// order in which they were first set.
pub struct ShellConfig {
    env: Vec<(String, String)>,
}

/// The values of a sequence of name/value pairs.
pub open spec fn pairs_view(v: Seq<(String, String)>) -> Seq<(Seq<char>, Seq<char>)> {
    v.map_values(|p: (String, String)| (p.0@, p.1@))
}

/// No name occurs twice.
pub open spec fn keys_distinct(vs: Seq<(Seq<char>, Seq<char>)>) -> bool {
    forall|i: int, j: int| 0 <= i < vs.len() && 0 <= j < vs.len() && i != j ==> #[trigger] vs[i].0 != #[trigger] vs[j].0
}

/// The value of the variable `k`, if it is set.
pub open spec fn lookup(vs: Seq<(Seq<char>, Seq<char>)>, k: Seq<char>) -> Option<Seq<char>> {
    if exists|i: int| 0 <= i < vs.len() && vs[i].0 == k {
        Some(vs[choose|i: int| 0 <= i < vs.len() && vs[i].0 == k].1)
    } else {
        None
    }
}

/// Setting `k` to `v`: the value of an existing variable is replaced in
/// place, a new variable comes last.
pub open spec fn set_var(vs: Seq<(Seq<char>, Seq<char>)>, k: Seq<char>, v: Seq<char>) -> Seq<(Seq<char>, Seq<char>)> {
    if exists|i: int| 0 <= i < vs.len() && vs[i].0 == k {
        vs.update(choose|i: int| 0 <= i < vs.len() && vs[i].0 == k, (k, v))
    } else {
        vs.push((k, v))
    }
}

/// The environment made by setting the pairs one after the other.
pub open spec fn from_pairs(ps: Seq<(Seq<char>, Seq<char>)>) -> Seq<(Seq<char>, Seq<char>)>
    decreases ps.len(),
{
    if ps.len() == 0 {
        Seq::empty()
    } else {
        set_var(from_pairs(ps.drop_last()), ps.last().0, ps.last().1)
    }
}

/// The entry `name=value` that a program receives for one variable.
pub open spec fn env_entry(p: (Seq<char>, Seq<char>)) -> Seq<char> {
    p.0 + seq!['='] + p.1
}

/// The entries of all variables, in order.
pub open spec fn env_entries(vs: Seq<(Seq<char>, Seq<char>)>) -> Seq<Seq<char>> {
    vs.map_values(|p: (Seq<char>, Seq<char>)| env_entry(p))
}

/// The directories of a `PATH` value: the pieces between colons, empty
/// pieces included; the empty value is one empty piece.
pub open spec fn split_paths(s: Seq<char>) -> Seq<Seq<char>>
    decreases s.len(),
{
    if s.len() == 0 {
        seq![Seq::empty()]
    } else {
        let prev = split_paths(s.drop_last());
        if s.last() == ':' {
            prev.push(Seq::empty())
        } else {
            prev.update(prev.len() - 1, prev.last().push(s.last()))
        }
    }
}

/// `dir` joined with `name`: an absolute name stands alone, otherwise a
/// separator is put between them where `dir` is not empty and does not end
/// in one.
pub open spec fn join_path(dir: Seq<char>, name: Seq<char>) -> Seq<char> {
    if name.len() > 0 && name[0] == '/' {
        name
    } else if dir.len() > 0 && dir.last() != '/' {
        dir + seq!['/'] + name
    } else {
        dir + name
    }
}

/// The paths at which a program is looked for, in the order of `PATH`.
pub open spec fn candidates(path: Seq<char>, name: Seq<char>) -> Seq<Seq<char>> {
    split_paths(path).map_values(|d: Seq<char>| join_path(d, name))
}

/// Whether `p` is among the paths `ex`.
pub open spec fn listed(p: Seq<char>, ex: Seq<Seq<char>>) -> bool {
    exists|j: int| 0 <= j < ex.len() && ex[j] == p
}

/// The index of the first candidate that is listed as executable.
pub open spec fn first_listed(cs: Seq<Seq<char>>, ex: Seq<Seq<char>>) -> Option<int> {
    if exists|i: int| 0 <= i < cs.len() && listed(cs[i], ex) {
        Some(choose|i: int| 0 <= i < cs.len() && listed(cs[i], ex) && forall|j: int| 0 <= j < i ==> !listed(#[trigger] cs[j], ex))
    } else {
        None
    }
}

/// The name of the variable that lists the program directories.
pub open spec fn path_key() -> Seq<char> {
    seq!['P', 'A', 'T', 'H']
}

/// The result of looking a program up along `PATH`, given the paths known
/// to be executable files.
pub open spec fn build_path_spec(vs: Seq<(Seq<char>, Seq<char>)>, name: Seq<char>, ex: Seq<Seq<char>>) -> Result<Seq<char>, SpecConfigError> {
    match lookup(vs, path_key()) {
        None => Err(SpecConfigError::EnvKeyNotFound(path_key())),
        Some(p) => match first_listed(candidates(p, name), ex) {
            Some(i) => Ok(candidates(p, name)[i]),
            None => Err(SpecConfigError::CommandNotFound),
        },
    }
}

/// With distinct names, the value looked up is that of the one entry with
/// the name.
pub proof fn lemma_lookup_at(vs: Seq<(Seq<char>, Seq<char>)>, i: int)
    requires
        keys_distinct(vs),
        0 <= i < vs.len(),
    ensures
        lookup(vs, vs[i].0) == Some(vs[i].1),
{
    let j = choose|j: int| 0 <= j < vs.len() && vs[j].0 == vs[i].0;
    assert(vs[j].0 == vs[i].0);
    if j != i {
        assert(vs[i].0 != vs[j].0);
    }
}

/// Setting a variable keeps the names distinct, gives the variable its new
/// value and leaves every other variable as it was.
pub proof fn lemma_set_var(vs: Seq<(Seq<char>, Seq<char>)>, k: Seq<char>, v: Seq<char>)
    requires
        keys_distinct(vs),
    ensures
        keys_distinct(set_var(vs, k, v)),
        lookup(set_var(vs, k, v), k) == Some(v),
        forall|k2: Seq<char>| k2 != k ==> lookup(set_var(vs, k, v), k2) == #[trigger] lookup(vs, k2),
{
    let r = set_var(vs, k, v);
    if exists|i: int| 0 <= i < vs.len() && vs[i].0 == k {
        let i = choose|i: int| 0 <= i < vs.len() && vs[i].0 == k;
        assert(r[i] == (k, v));
        assert(keys_distinct(r)) by {
            assert forall|a: int, b: int| 0 <= a < r.len() && 0 <= b < r.len() && a != b implies #[trigger] r[a].0 != #[trigger] r[b].0 by {
                assert(vs[a].0 != vs[b].0);
                if a == i {
                    assert(r[b].0 == vs[b].0);
                } else if b == i {
                    assert(r[a].0 == vs[a].0);
                }
            }
        }
        lemma_lookup_at(r, i);
        assert forall|k2: Seq<char>| k2 != k implies lookup(r, k2) == #[trigger] lookup(vs, k2) by {
            if exists|j: int| 0 <= j < vs.len() && vs[j].0 == k2 {
                let j = choose|j: int| 0 <= j < vs.len() && vs[j].0 == k2;
                assert(j != i);
                assert(r[j] == vs[j]);
                lemma_lookup_at(vs, j);
                lemma_lookup_at(r, j);
            } else {
                assert forall|j: int| 0 <= j < r.len() implies r[j].0 != k2 by {
                    if j != i {
                        assert(r[j] == vs[j]);
                    }
                }
            }
        }
    } else {
        assert(r == vs.push((k, v)));
        assert(keys_distinct(r)) by {
            assert forall|a: int, b: int| 0 <= a < r.len() && 0 <= b < r.len() && a != b implies #[trigger] r[a].0 != #[trigger] r[b].0 by {
                if a < vs.len() && b < vs.len() {
                    assert(vs[a].0 != vs[b].0);
                }
            }
        }
        lemma_lookup_at(r, vs.len() as int);
        assert forall|k2: Seq<char>| k2 != k implies lookup(r, k2) == #[trigger] lookup(vs, k2) by {
            if exists|j: int| 0 <= j < vs.len() && vs[j].0 == k2 {
                let j = choose|j: int| 0 <= j < vs.len() && vs[j].0 == k2;
                assert(r[j] == vs[j]);
                lemma_lookup_at(vs, j);
                lemma_lookup_at(r, j);
            } else {
                assert forall|j: int| 0 <= j < r.len() implies r[j].0 != k2 by {
                    if j < vs.len() {
                        assert(r[j] == vs[j]);
                    }
                }
            }
        }
    }
}

impl ShellConfig {
    #[verifier::type_invariant]
    spec fn inv(&self) -> bool {
        keys_distinct(pairs_view(self.env@))
    }

    /// The variables, in order.
    pub closed spec fn vars(&self) -> Seq<(Seq<char>, Seq<char>)> {
        pairs_view(self.env@)
    }
}


/// Whether two strings are equal.
fn str_eq(a: &String, b: &String) -> (r: bool)
    ensures
        r == (a@ == b@),
{
    a.eq(b)
}

/// The pieces of a `PATH` value.
pub fn split_path_value(s: &String) -> (r: Vec<String>)
    ensures
        r.deep_view() == split_paths(s@),
{
    let cs = crate::text::chars_of(s.as_str());
    let mut done: Vec<String> = Vec::new();
    let mut cur = String::new();
    let mut i: usize = 0;
    assert(cs@.take(0) =~= Seq::<char>::empty());
    assert(done.deep_view().push(cur@) =~= split_paths(cs@.take(0)));
    while i < cs.len()
        invariant
            cs@ == s@,
            i <= cs@.len(),
            done.deep_view().push(cur@) == split_paths(cs@.take(i as int)),
        decreases cs.len() - i,
    {
        let c = cs[i];
        let ghost pre1 = cs@.take(i + 1);
        assert(pre1.drop_last() == cs@.take(i as int));
        assert(pre1.last() == c);
        let ghost old_done = done.deep_view();
        let ghost old_cur = cur@;
        if c == ':' {
            let mut piece = String::new();
            std::mem::swap(&mut piece, &mut cur);
            let ghost dv = done@;
            done.push(piece);
            assert(done.deep_view() =~= old_done.push(old_cur)) by {
                assert forall|k: int| 0 <= k < dv.len() implies #[trigger] done.deep_view()[k] == old_done[k] by {
                    assert(done@[k] == dv[k]);
                }
            }
            assert(done.deep_view().push(cur@) =~= split_paths(pre1));
        } else {
            crate::text::push_char(&mut cur, c);
            assert(done.deep_view().push(cur@) =~= split_paths(pre1));
        }
        i = i + 1;
    }
    assert(cs@.take(cs@.len() as int) =~= cs@);
    let ghost dv = done@;
    let ghost old_done = done.deep_view();
    done.push(cur);
    assert(done.deep_view() =~= old_done.push(cur@)) by {
        assert forall|k: int| 0 <= k < dv.len() implies #[trigger] done.deep_view()[k] == old_done[k] by {
            assert(done@[k] == dv[k]);
        }
    }
    done
}

/// `dir` joined with `name`.
pub fn join_dir(dir: &String, name: &str) -> (r: String)
    ensures
        r@ == join_path(dir@, name@),
{
    let ncs = crate::text::chars_of(name);
    if ncs.len() > 0 && ncs[0] == '/' {
        return name.to_owned();
    }
    let dcs = crate::text::chars_of(dir.as_str());
    let mut r = dir.clone();
    if dcs.len() > 0 && dcs[dcs.len() - 1] != '/' {
        crate::text::push_char(&mut r, '/');
    }
    r.append(name);
    r
}

impl ShellConfig {
    /// The index of the variable named `key`.
    fn find_key(&self, key: &String) -> (r: Option<usize>)
        ensures
            match r {
                Some(i) => i < self.vars().len() && self.vars()[i as int].0 == key@,
                None => forall|i: int| 0 <= i < self.vars().len() ==> self.vars()[i].0 != key@,
            },
    {
        let mut i: usize = 0;
        while i < self.env.len()
            invariant
                i <= self.env@.len(),
                forall|j: int| 0 <= j < i ==> self.vars()[j].0 != key@,
            decreases self.env.len() - i,
        {
            if str_eq(&self.env[i].0, key) {
                return Some(i);
            }
            i = i + 1;
        }
        None
    }

    /// An environment with the given variables; a name given twice keeps
    /// its last value, at the place of its first occurrence.
    pub fn new(vars: Vec<(String, String)>) -> (c: Self)
        ensures
            c.vars() == from_pairs(pairs_view(vars@)),
    {
        let mut c = ShellConfig { env: Vec::new() };
        assert(pairs_view(c.env@) =~= from_pairs(pairs_view(vars@).take(0)));
        let mut i: usize = 0;
        while i < vars.len()
            invariant
                i <= vars@.len(),
                c.vars() == from_pairs(pairs_view(vars@).take(i as int)),
            decreases vars.len() - i,
        {
            let k = vars[i].0.clone();
            let v = vars[i].1.clone();
            c.set_env(k, v);
            assert(pairs_view(vars@).take(i + 1).drop_last() =~= pairs_view(vars@).take(i as int));
            i = i + 1;
        }
        assert(pairs_view(vars@).take(vars@.len() as int) =~= pairs_view(vars@));
        c
    }

    /// Sets the variable `key` to `value`.
    pub fn set_env(&mut self, key: String, value: String)
        ensures
            final(self).vars() == set_var(old(self).vars(), key@, value@),
    {
        proof {
            use_type_invariant(&*self);
            lemma_set_var(self.vars(), key@, value@);
        }
        let ghost vs = self.vars();
        match self.find_key(&key) {
            Some(i) => {
                proof {
                    let j = choose|j: int| 0 <= j < vs.len() && vs[j].0 == key@;
                    if j != i {
                        assert(vs[j].0 != vs[i as int].0);
                    }
                }
                let mut env: Vec<(String, String)> = Vec::new();
                std::mem::swap(&mut env, &mut self.env);
                env.set(i, (key, value));
                assert(pairs_view(env@) =~= vs.update(i as int, (key@, value@)));
                self.env = env;
            },
            None => {
                let mut env: Vec<(String, String)> = Vec::new();
                std::mem::swap(&mut env, &mut self.env);
                env.push((key, value));
                assert(pairs_view(env@) =~= vs.push((key@, value@)));
                self.env = env;
            },
        }
    }

    /// The value of the variable `key`.
    pub fn var(&self, key: &String) -> (r: Option<&String>)
        ensures
            match r {
                Some(v) => lookup(self.vars(), key@) == Some(v@),
                None => lookup(self.vars(), key@) is None,
            },
    {
        proof {
            use_type_invariant(&*self);
        }
        match self.find_key(key) {
            Some(i) => {
                proof {
                    lemma_lookup_at(self.vars(), i as int);
                }
                Some(&self.env[i].1)
            },
            None => None,
        }
    }

    /// All variables, in order.
    pub fn get_env(&self) -> (r: &Vec<(String, String)>)
        ensures
            pairs_view(r@) == self.vars(),
    {
        &self.env
    }
}


/// The string `PATH`.
fn path_key_string() -> (r: String)
    ensures
        r@ == path_key(),
{
    proof {
        reveal_strlit("PATH");
        assert("PATH"@ =~= path_key());
    }
    "PATH".to_owned()
}

impl ShellConfig {
    /// The value of `PATH`.
    pub fn return_exec_path(&self) -> (r: Result<&String, ConfigError>)
        ensures
            match r {
                Ok(p) => lookup(self.vars(), path_key()) == Some(p@),
                Err(e) => lookup(self.vars(), path_key()) is None && e@ == SpecConfigError::EnvKeyNotFound(path_key()),
            },
    {
        let key = path_key_string();
        match self.var(&key) {
            Some(p) => Ok(p),
            None => Err(ConfigError::EnvKeyNotFound(key)),
        }
    }

    /// The paths at which `program_name` is looked for, in the order of
    /// `PATH`.
    pub fn candidate_paths(&self, program_name: &str) -> (r: Result<Vec<String>, ConfigError>)
        ensures
            match r {
                Ok(cs) => lookup(self.vars(), path_key()) matches Some(p) && cs.deep_view() == candidates(p, program_name@),
                Err(e) => lookup(self.vars(), path_key()) is None && e@ == SpecConfigError::EnvKeyNotFound(path_key()),
            },
    {
        let path = match self.return_exec_path() {
            Ok(p) => p,
            Err(e) => {
                return Err(e);
            },
        };
        let dirs = split_path_value(path);
        assert(candidates(path@, program_name@).len() == dirs@.len());
        let mut cs: Vec<String> = Vec::new();
        let mut i: usize = 0;
        while i < dirs.len()
            invariant
                i <= dirs@.len(),
                dirs.deep_view() == split_paths(path@),
                candidates(path@, program_name@).len() == dirs@.len(),
                cs@.len() == i,
                cs.deep_view() == candidates(path@, program_name@).take(i as int),
            decreases dirs.len() - i,
        {
            let ghost old_cs = cs@;
            let ghost old_dv = cs.deep_view();
            let c = join_dir(&dirs[i], program_name);
            assert(dirs@[i as int]@ == dirs.deep_view()[i as int]);
            assert(candidates(path@, program_name@)[i as int] == join_path(split_paths(path@)[i as int], program_name@));
            cs.push(c);
            assert(cs.deep_view() =~= candidates(path@, program_name@).take(i + 1)) by {
                assert forall|k: int| 0 <= k < i implies #[trigger] cs.deep_view()[k] == old_dv[k] by {
                    assert(cs@[k] == old_cs[k]);
                }
            }
            i = i + 1;
        }
        assert(candidates(path@, program_name@).take(i as int) =~= candidates(path@, program_name@));
        Ok(cs)
    }

    /// The path at which `program_name` is run: the first candidate along
    /// `PATH` that `executables` lists as an executable file.
    #[verifier::loop_isolation(false)]
    pub fn build_path(&self, program_name: &str, executables: &Vec<String>) -> (r: Result<String, ConfigError>)
        ensures
            path_result_view(r) == build_path_spec(self.vars(), program_name@, executables.deep_view()),
    {
        let cs = match self.candidate_paths(program_name) {
            Ok(cs) => cs,
            Err(e) => {
                return Err(e);
            },
        };
        let ghost ex = executables.deep_view();
        let ghost csv = cs.deep_view();
        let mut i: usize = 0;
        while i < cs.len()
            invariant
                i <= cs@.len(),
                csv == cs.deep_view(),
                ex == executables.deep_view(),
                forall|j: int| 0 <= j < i ==> !listed(#[trigger] csv[j], ex),
            decreases cs.len() - i,
        {
            let mut k: usize = 0;
            while k < executables.len()
                invariant
                    i < cs@.len(),
                    k <= executables@.len(),
                    csv == cs.deep_view(),
                    ex == executables.deep_view(),
                    forall|m: int| 0 <= m < k ==> ex[m] != csv[i as int],
                    forall|j: int| 0 <= j < i ==> !listed(#[trigger] csv[j], ex),
                decreases executables.len() - k,
            {
                if str_eq(&executables[k], &cs[i]) {
                    assert(ex[k as int] == csv[i as int]);
                    proof {
                        // candidate `i` is the first one listed
                        assert(0 <= i < csv.len() && listed(csv[i as int], ex) && forall|j: int| 0 <= j < i ==> !listed(#[trigger] csv[j], ex));
                    }
                    return Ok(cs[i].clone());
                }
                k = k + 1;
            }
            assert(ex.len() == executables@.len());
            assert(!listed(csv[i as int], ex));
            i = i + 1;
        }
        Err(ConfigError::CommandNotFound)
    }

    /// The entries `name=value` of all variables, in order, as programs
    /// receive them; none may hold a NUL byte. On failure the error names the
    /// first offending entry and the byte offset of its first NUL byte.
    #[verifier::loop_isolation(false)]
    pub fn get_c_env(&self) -> (r: Result<Vec<String>, NulError>)
        ensures
            r is Ok <==> forall|k: int| 0 <= k < self.vars().len() ==> nul_byte_offset(#[trigger] env_entries(self.vars())[k]) is None,
            r matches Ok(v) ==> v.deep_view() == env_entries(self.vars()),
            r matches Err(e) ==> {
                &&& e.item < self.vars().len()
                &&& nul_byte_offset(env_entries(self.vars())[e.item as int]) == Some(e.position as int)
                &&& forall|k: int| 0 <= k < e.item ==> nul_byte_offset(#[trigger] env_entries(self.vars())[k]) is None
            },
    {
        proof {
            reveal_strlit("=");
            assert("="@ =~= seq!['=']);
        }
        let ghost ents = env_entries(self.vars());
        assert(ents.len() == self.env@.len());
        let mut v: Vec<String> = Vec::new();
        let mut i: usize = 0;
        while i < self.env.len()
            invariant
                i <= self.env@.len(),
                ents == env_entries(self.vars()),
                ents.len() == self.env@.len(),
                v@.len() == i,
                v.deep_view() == ents.take(i as int),
            decreases self.env.len() - i,
        {
            let ghost old_v = v@;
            let ghost old_dv = v.deep_view();
            let pair = &self.env[i];
            assert(*pair == self.env@[i as int]);
            let mut e = pair.0.clone();
            assert(e@ == self.env@[i as int].0@);
            e.append("=");
            assert(e@ == self.env@[i as int].0@ + seq!['=']);
            e.append(pair.1.as_str());
            assert(e@ == self.env@[i as int].0@ + seq!['='] + self.env@[i as int].1@);
            assert(self.vars()[i as int] == (self.env@[i as int].0@, self.env@[i as int].1@));
            assert(ents[i as int] == env_entry(self.vars()[i as int]));
            assert(e@ =~= ents[i as int]);
            v.push(e);
            assert(v.deep_view() =~= ents.take(i + 1)) by {
                assert forall|k: int| 0 <= k < i implies #[trigger] v.deep_view()[k] == old_dv[k] by {
                    assert(v@[k] == old_v[k]);
                }
            }
            i = i + 1;
        }
        assert(ents.take(i as int) =~= ents);
        match check_no_nul(&v) {
            Ok(()) => {
                assert forall|k: int| 0 <= k < self.vars().len() implies nul_byte_offset(#[trigger] env_entries(self.vars())[k]) is None by {
                    assert(v@[k]@ == v.deep_view()[k]);
                }
                Ok(v)
            },
            Err(e) => {
                assert(v@[e.item as int]@ == v.deep_view()[e.item as int]);
                assert forall|k: int| 0 <= k < e.item implies nul_byte_offset(#[trigger] env_entries(self.vars())[k]) is None by {
                    assert(v@[k]@ == v.deep_view()[k]);
                }
                Err(e)
            },
        }
    }
}


/// The last value given for a name among the pairs, if any.
pub open spec fn last_value(ps: Seq<(Seq<char>, Seq<char>)>, k: Seq<char>) -> Option<Seq<char>>
    decreases ps.len(),
{
    if ps.len() == 0 {
        None
    } else if ps.last().0 == k {
        Some(ps.last().1)
    } else {
        last_value(ps.drop_last(), k)
    }
}

/// An environment built from pairs has distinct names, and each name has
/// the last value given for it.
pub proof fn lemma_from_pairs(ps: Seq<(Seq<char>, Seq<char>)>)
    ensures
        keys_distinct(from_pairs(ps)),
        forall|k: Seq<char>| #[trigger] lookup(from_pairs(ps), k) == last_value(ps, k),
    decreases ps.len(),
{
    if ps.len() == 0 {
        assert forall|k: Seq<char>| #[trigger] lookup(from_pairs(ps), k) == last_value(ps, k) by {
            assert(from_pairs(ps).len() == 0);
        }
    } else {
        lemma_from_pairs(ps.drop_last());
        lemma_set_var(from_pairs(ps.drop_last()), ps.last().0, ps.last().1);
        assert forall|k: Seq<char>| #[trigger] lookup(from_pairs(ps), k) == last_value(ps, k) by {
            if k != ps.last().0 {
                assert(lookup(from_pairs(ps), k) == lookup(from_pairs(ps.drop_last()), k));
            }
        }
    }
}


impl SpecConfigError {
    /// The text that describes the error.
    pub open spec fn message_spec(&self) -> Seq<char> {
        match self {
            SpecConfigError::EnvKeyNotFound(k) => "Config Error: '"@ + *k + "' not found in Env"@,
            SpecConfigError::CommandNotFound => "Config Error: Command Not Found in Path"@,
        }
    }
}

impl ConfigError {
    /// The text that describes the error.
    pub fn message(&self) -> (r: String)
        ensures
            r@ == self@.message_spec(),
    {
        match self {
            ConfigError::EnvKeyNotFound(k) => {
                let mut r = "Config Error: '".to_owned();
                r.append(k.as_str());
                r.append("' not found in Env");
                r
            },
            ConfigError::CommandNotFound => "Config Error: Command Not Found in Path".to_owned(),
        }
    }
}

} // verus!
