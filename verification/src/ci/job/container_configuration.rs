//! Where a job's commands run: directly, or inside a docker container.
use vstd::prelude::*;
use crate::text::{copy_strings, join, join_strings};

verus! {

/// `--<flag> "<value>"`, as the docker command line spells an option.
pub open spec fn quoted_option(flag: Seq<char>, value: Seq<char>) -> Seq<char> {
    "--"@ + flag + " \""@ + value + "\""@
}

/// The options `--<flag> "<value>"` for each value, separated by spaces.
pub open spec fn quoted_options(flag: Seq<char>, values: Seq<Seq<char>>) -> Seq<char> {
    join(values.map_values(|v: Seq<char>| quoted_option(flag, v)), " "@)
}

/// The command that runs `instruction` in a fresh container of `image`.
pub open spec fn docker_command(
    image: Seq<char>,
    env: Seq<Seq<char>>,
    volumes: Seq<Seq<char>>,
    user: Seq<char>,
    workdir: Seq<char>,
    instruction: Seq<char>,
) -> Seq<char> {
    "docker run --rm "@ + quoted_option("user"@, user) + " "@ + quoted_options("volume"@, volumes)
        + " "@ + quoted_option("workdir"@, workdir) + " "@ + quoted_options("env"@, env) + " "@
        + image + " "@ + instruction
}

fn make_option(flag: &str, value: &str) -> (r: String)
    ensures
        r@ == quoted_option(flag@, value@),
{
    let mut r = String::from_str("--");
    r.append(flag);
    r.append(" \"");
    r.append(value);
    r.append("\"");
    r
}

fn make_options(flag: &str, values: &Vec<String>) -> (r: String)
    ensures
        r@ == quoted_options(flag@, values@.map_values(|s: String| s@)),
{
    let mut parts: Vec<String> = Vec::new();
    let mut i: usize = 0;
    while i < values.len()
        invariant
            i <= values.len(),
            parts@.map_values(|s: String| s@) =~= values@.map_values(|s: String| s@).take(
                i as int,
            ).map_values(|v: Seq<char>| quoted_option(flag@, v)),
        decreases values.len() - i,
    {
        let o = make_option(flag, values[i].as_str());
        let ghost before = parts@;
        parts.push(o);
        proof {
            let vs = values@.map_values(|s: String| s@);
            assert(vs.take(i + 1) =~= vs.take(i as int).push(vs[i as int]));
            assert(parts@ =~= before.push(o));
            assert(parts@.map_values(|s: String| s@) =~= before.map_values(|s: String| s@).push(o@));
        }
        i = i + 1;
    }
    assert(values@.map_values(|s: String| s@).take(values.len() as int) =~= values@.map_values(
        |s: String| s@,
    ));
    join_strings(&parts, " ")
}

/// A docker container that runs a job's commands.
#[derive(Debug)]
pub struct DockerContainer {
    image: String,
    env: Vec<String>,
    volumes: Vec<String>,
    user: String,
    workdir: String,
}

/// What a container is made of: its image, the environment variables handed
/// to it, its volumes, its user and its working directory.
pub type DockerModel = (Seq<char>, Seq<Seq<char>>, Seq<Seq<char>>, Seq<char>, Seq<char>);

impl View for DockerContainer {
    type V = DockerModel;

    open spec fn view(&self) -> DockerModel {
        (self.image_view(), self.env_view(), self.volumes_view(), self.user_view(), self.workdir_view())
    }
}

impl Clone for DockerContainer {
    fn clone(&self) -> (r: Self)
        ensures
            r@ == self@,
    {
        DockerContainer {
            image: self.image.clone(),
            env: self.env.clone(),
            volumes: self.volumes.clone(),
            user: self.user.clone(),
            workdir: self.workdir.clone(),
        }
    }
}

impl DockerContainer {
    /// The image.
    pub closed spec fn image_view(&self) -> Seq<char> {
        self.image@
    }

    /// The names of the environment variables handed to the container, in order.
    pub closed spec fn env_view(&self) -> Seq<Seq<char>> {
        self.env@.map_values(|s: String| s@)
    }

    /// The volumes, in order.
    pub closed spec fn volumes_view(&self) -> Seq<Seq<char>> {
        self.volumes@.map_values(|s: String| s@)
    }

    /// The user the commands run as.
    pub closed spec fn user_view(&self) -> Seq<char> {
        self.user@
    }

    /// The working directory.
    pub closed spec fn workdir_view(&self) -> Seq<char> {
        self.workdir@
    }

    /// The command that runs `instruction` in this container.
    pub open spec fn command(&self, instruction: Seq<char>) -> Seq<char> {
        docker_command(
            self.image_view(),
            self.env_view(),
            self.volumes_view(),
            self.user_view(),
            self.workdir_view(),
            instruction,
        )
    }

    fn compile(&self, instruction: &str) -> (r: String)
        ensures
            r@ == self.command(instruction@),
    {
        let mut r = String::from_str("docker run --rm ");
        let user = make_option("user", self.user.as_str());
        r.append(user.as_str());
        r.append(" ");
        let volumes = make_options("volume", &self.volumes);
        r.append(volumes.as_str());
        r.append(" ");
        let workdir = make_option("workdir", self.workdir.as_str());
        r.append(workdir.as_str());
        r.append(" ");
        let env = make_options("env", &self.env);
        r.append(env.as_str());
        r.append(" ");
        r.append(self.image.as_str());
        r.append(" ");
        r.append(instruction);
        r
    }

    /// Hands the environment variable `key` on to the container.
    pub fn forward_env(&mut self, key: &str)
        ensures
            final(self).env_view() == old(self).env_view().push(key@),
            final(self).image_view() == old(self).image_view(),
            final(self).volumes_view() == old(self).volumes_view(),
            final(self).user_view() == old(self).user_view(),
            final(self).workdir_view() == old(self).workdir_view(),
    {
        self.env.push(key.to_owned());
        assert(self.env@.map_values(|s: String| s@) =~= old(self).env@.map_values(|s: String| s@).push(key@));
    }

    /// A container of `image` with the given settings, that hands on no
    /// variable yet.
    pub fn new(
        image: &str,
        user: &str,
        workdir: &str,
        volumes: &[String],
    ) -> (r: Self)
        ensures
            r.image_view() == image@,
            r.user_view() == user@,
            r.workdir_view() == workdir@,
            r.volumes_view() == volumes@.map_values(|s: String| s@),
            r.env_view() == Seq::<Seq<char>>::empty(),
    {
        let volumes = copy_strings(volumes);
        let r = DockerContainer {
            image: image.to_owned(),
            env: Vec::new(),
            workdir: workdir.to_owned(),
            user: user.to_owned(),
            volumes,
        };
        assert(r.env_view() =~= Seq::<Seq<char>>::empty());
        r
    }

    /// A container of `image` with the given settings (`new`) that hands on
    /// the variables `env`, in order (`forward_env`).
    pub fn with_env(
        image: &str,
        user: &str,
        workdir: &str,
        volumes: &[String],
        env: &[String],
    ) -> (r: Self)
        ensures
            r.image_view() == image@,
            r.user_view() == user@,
            r.workdir_view() == workdir@,
            r.volumes_view() == volumes@.map_values(|s: String| s@),
            r.env_view() == env@.map_values(|s: String| s@),
    {
        let mut r = Self::new(image, user, workdir, volumes);
        let mut i: usize = 0;
        while i < env.len()
            invariant
                i <= env.len(),
                r.image_view() == image@,
                r.user_view() == user@,
                r.workdir_view() == workdir@,
                r.volumes_view() == volumes@.map_values(|s: String| s@),
                r.env_view() == env@.take(i as int).map_values(|s: String| s@),
            decreases env.len() - i,
        {
            r.forward_env(env[i].as_str());
            proof {
                assert(env@.take(i + 1).map_values(|s: String| s@)
                    =~= env@.take(i as int).map_values(|s: String| s@).push(env@[i as int]@));
            }
            i = i + 1;
        }
        assert(env@.take(env.len() as int) =~= env@);
        r
    }
}

/// The command that runs `instruction` with the container `c`, if any: the
/// instruction itself without one.
pub open spec fn command_of(c: Option<DockerModel>, instruction: Seq<char>) -> Seq<char> {
    match c {
        None => instruction,
        Some(m) => docker_command(m.0, m.1, m.2, m.3, m.4, instruction),
    }
}

/// How a job's commands are run.
#[derive(Debug)]
pub enum ContainerConfiguration {
    NoContainer,
    Container(DockerContainer),
}

impl View for ContainerConfiguration {
    type V = Option<DockerModel>;

    open spec fn view(&self) -> Option<DockerModel> {
        match self {
            ContainerConfiguration::NoContainer => None,
            ContainerConfiguration::Container(c) => Some(c@),
        }
    }
}

impl Clone for ContainerConfiguration {
    fn clone(&self) -> (r: Self)
        ensures
            r@ == self@,
    {
        match self {
            ContainerConfiguration::NoContainer => ContainerConfiguration::NoContainer,
            ContainerConfiguration::Container(c) => ContainerConfiguration::Container(c.clone()),
        }
    }
}

impl ContainerConfiguration {
    /// The command that runs `instruction` under this configuration.
    pub open spec fn command(&self, instruction: Seq<char>) -> Seq<char> {
        match self {
            ContainerConfiguration::NoContainer => instruction,
            ContainerConfiguration::Container(docker) => docker.command(instruction),
        }
    }

    /// The command line that runs `instruction`: the instruction itself, or the
    /// docker command that runs it in the container.
    pub fn compile(&self, instruction: &str) -> (r: String)
        ensures
            r@ == self.command(instruction@),
    {
        match self {
            ContainerConfiguration::NoContainer => instruction.to_owned(),
            ContainerConfiguration::Container(docker) => docker.compile(instruction),
        }
    }
}

impl Default for ContainerConfiguration {
    fn default() -> (r: Self)
        ensures
            r is NoContainer,
    {
        Self::NoContainer
    }
}

/// `t` stands in `s` from position `p`.
pub open spec fn occurs_at(s: Seq<char>, p: int, t: Seq<char>) -> bool {
    &&& 0 <= p
    &&& p + t.len() <= s.len()
    &&& s.subrange(p, p + t.len()) == t
}

/// The parts joined up to `n` start with the parts joined up to `m`.
proof fn lemma_join_prefix(parts: Seq<Seq<char>>, sep: Seq<char>, m: int, n: int)
    requires
        1 <= m <= n <= parts.len(),
    ensures
        join(parts.take(m), sep).len() <= join(parts.take(n), sep).len(),
        join(parts.take(n), sep).subrange(0, join(parts.take(m), sep).len() as int) == join(parts.take(m), sep),
    decreases n - m,
{
    if m < n {
        lemma_join_prefix(parts, sep, m, n - 1);
        let a = join(parts.take(m), sep);
        let b = join(parts.take(n - 1), sep);
        assert(parts.take(n).drop_last() =~= parts.take(n - 1));
        assert(parts.take(n).last() == parts[n - 1]);
        let c = join(parts.take(n), sep);
        assert(c == b + sep + parts[n - 1]);
        assert(c.subrange(0, a.len() as int) =~= b.subrange(0, a.len() as int));
    } else {
        assert(join(parts.take(n), sep).subrange(0, join(parts.take(n), sep).len() as int) =~= join(parts.take(n), sep));
    }
}

/// The part at `i` ends the parts joined up to it.
proof fn lemma_join_ends_with(parts: Seq<Seq<char>>, sep: Seq<char>, i: int)
    requires
        0 <= i < parts.len(),
    ensures
        parts[i].len() <= join(parts.take(i + 1), sep).len(),
        occurs_at(join(parts.take(i + 1), sep), join(parts.take(i + 1), sep).len() - parts[i].len(), parts[i]),
        i > 0 ==> join(parts.take(i + 1), sep).len() - parts[i].len() == join(parts.take(i), sep).len() + sep.len(),
{
    let c = join(parts.take(i + 1), sep);
    if i == 0 {
        assert(parts.take(1).len() == 1);
        assert(c == parts[0]);
        assert(c.subrange(0, c.len() as int) =~= c);
    } else {
        assert(parts.take(i + 1).drop_last() =~= parts.take(i));
        assert(parts.take(i + 1).last() == parts[i]);
        let b = join(parts.take(i), sep);
        assert(c == b + sep + parts[i]);
        assert(c.subrange(c.len() - parts[i].len(), c.len() as int) =~= parts[i]);
    }
}

/// What stands in a text stands at the same place, moved by the length of
/// what comes before, in a longer text.
proof fn lemma_occurs_within(a: Seq<char>, s: Seq<char>, b: Seq<char>, p: int, t: Seq<char>)
    requires
        occurs_at(s, p, t),
    ensures
        occurs_at(a + s + b, a.len() + p, t),
{
    assert((a + s + b).subrange(a.len() + p, a.len() + p + t.len()) =~= s.subrange(p, p + t.len()));
}

/// The part at `i` stands in the joined parts, at the place where the parts
/// up to it, joined, end; that place grows with `i` when no part is empty.
proof fn lemma_join_holds(parts: Seq<Seq<char>>, sep: Seq<char>, i: int)
    requires
        0 <= i < parts.len(),
    ensures
        occurs_at(join(parts, sep), join(parts.take(i + 1), sep).len() - parts[i].len(), parts[i]),
{
    lemma_join_ends_with(parts, sep, i);
    lemma_join_prefix(parts, sep, i + 1, parts.len() as int);
    assert(parts.take(parts.len() as int) =~= parts);
    let whole = join(parts, sep);
    let upto = join(parts.take(i + 1), sep);
    let p = upto.len() - parts[i].len();
    assert(whole.subrange(p, p + parts[i].len()) =~= upto.subrange(p, p + parts[i].len())) by {
        assert(whole.subrange(0, upto.len() as int) == upto);
        assert forall|k: int| 0 <= k < parts[i].len() implies #[trigger] whole.subrange(p, p + parts[i].len())[k]
            == upto.subrange(p, p + parts[i].len())[k] by {
            assert(whole[p + k] == whole.subrange(0, upto.len() as int)[p + k]);
        }
    }
}

/// Every volume of a container is mounted by the command that runs an
/// instruction in it, in order: the option `--volume "<v>"` of each volume
/// `v` stands in the command, that of an earlier volume before that of a
/// later one.
pub proof fn lemma_every_volume_mounted(
    image: Seq<char>,
    env: Seq<Seq<char>>,
    volumes: Seq<Seq<char>>,
    user: Seq<char>,
    workdir: Seq<char>,
    instruction: Seq<char>,
    i: int,
    j: int,
)
    requires
        0 <= i <= j < volumes.len(),
    ensures
        exists|p: int, q: int|
            #![trigger occurs_at(docker_command(image, env, volumes, user, workdir, instruction), p, quoted_option("volume"@, volumes[i])),
                occurs_at(docker_command(image, env, volumes, user, workdir, instruction), q, quoted_option("volume"@, volumes[j]))]
            (p <= q && (i < j ==> p < q)
            && occurs_at(docker_command(image, env, volumes, user, workdir, instruction), p, quoted_option("volume"@, volumes[i]))
            && occurs_at(docker_command(image, env, volumes, user, workdir, instruction), q, quoted_option("volume"@, volumes[j]))),
{
    let parts = volumes.map_values(|v: Seq<char>| quoted_option("volume"@, v));
    let sep = " "@;
    let joined = join(parts, sep);
    assert(joined == quoted_options("volume"@, volumes));
    let a = "docker run --rm "@ + quoted_option("user"@, user) + " "@;
    let b = " "@ + quoted_option("workdir"@, workdir) + " "@ + quoted_options("env"@, env) + " "@ + image + " "@ + instruction;
    let cmd = docker_command(image, env, volumes, user, workdir, instruction);
    assert(cmd =~= a + joined + b);
    lemma_join_holds(parts, sep, i);
    lemma_join_holds(parts, sep, j);
    assert(parts[i] == quoted_option("volume"@, volumes[i]));
    assert(parts[j] == quoted_option("volume"@, volumes[j]));
    let pi = join(parts.take(i + 1), sep).len() - parts[i].len();
    let pj = join(parts.take(j + 1), sep).len() - parts[j].len();
    lemma_occurs_within(a, joined, b, pi, parts[i]);
    lemma_occurs_within(a, joined, b, pj, parts[j]);
    if i < j {
        lemma_join_ends_with(parts, sep, j);
        lemma_join_prefix(parts, sep, i + 1, j);
        reveal_strlit("--");
        assert(parts[i].len() > 0);
        assert(pi < pj);
    }
    assert(occurs_at(cmd, a.len() + pi, quoted_option("volume"@, volumes[i])));
    assert(occurs_at(cmd, a.len() + pj, quoted_option("volume"@, volumes[j])));
}

} // verus!
