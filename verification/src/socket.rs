//! Where the control sockets live: one per process, named after its number.

use crate::ipc::PROTOCOL_VERSION;
use crate::path;
use crate::text;
use vstd::prelude::*;

verus! {

/// What a process sees around it that decides where its socket goes.
pub struct Surroundings {
    /// `VKSLANG_SOCKET_DIR`.
    pub socket_dir: Option<String>,
    /// Whether `/run/host/usr` is there, as in a Steam container.
    pub in_container: bool,
    /// `HOME`.
    pub home: Option<String>,
    /// `XDG_RUNTIME_DIR`.
    pub runtime_dir: Option<String>,
    /// Directory for temporary files.
    pub temp_dir: String,
    /// Number of the user.
    pub uid: u32,
}

/// Directory for sockets below a runtime directory.
pub open spec fn runtime_place(dir: Seq<char>) -> Seq<char> {
    path::within(dir, "vkslang"@)
}

/// Directory for sockets below a home directory.
pub open spec fn home_place(home: Seq<char>) -> Seq<char> {
    path::within(home, ".local/state/vkslang"@)
}

/// Directory that a process creates its socket in.
///
/// Inside a container the runtime directory is private, so the home directory
/// is used instead, since it is shared.
pub open spec fn place(s: Surroundings) -> Seq<char> {
    if s.socket_dir is Some {
        s.socket_dir->0@
    } else if s.in_container && s.home is Some {
        home_place(s.home->0@)
    } else if s.runtime_dir is Some {
        runtime_place(s.runtime_dir->0@)
    } else {
        path::within(s.temp_dir@, "vkslang-"@ + text::decimal(s.uid as nat))
    }
}

/// Whether `dir` is among `dirs`, whatever the way it is written.
pub open spec fn listed(dirs: Seq<Seq<char>>, dir: Seq<char>) -> bool {
    exists|i: int| 0 <= i < dirs.len() && path::components(#[trigger] dirs[i]) == path::components(dir)
}

/// `dirs` with `dir` at the end, unless it is listed.
pub open spec fn with_place(dirs: Seq<Seq<char>>, dir: Seq<char>) -> Seq<Seq<char>> {
    if listed(dirs, dir) {
        dirs
    } else {
        dirs.push(dir)
    }
}

/// Every directory sockets may live in.
pub open spec fn places(s: Surroundings) -> Seq<Seq<char>> {
    let a = seq![place(s)];
    let b = if s.runtime_dir is Some {
        with_place(a, runtime_place(s.runtime_dir->0@))
    } else {
        a
    };
    if s.home is Some {
        with_place(b, home_place(s.home->0@))
    } else {
        b
    }
}

/// File name of the socket of process `pid`.
pub open spec fn socket_name(pid: u32) -> Seq<char> {
    text::decimal(pid as nat) + ".sock"@
}

/// Directory this process must create its socket in.
pub fn socket_dir(s: &Surroundings) -> (r: String)
    ensures
        r@ == place(*s),
{
    if let Some(dir) = &s.socket_dir {
        return dir.clone();
    }
    if s.in_container {
        if let Some(home) = &s.home {
            return path::join_text(home.as_str(), ".local/state/vkslang");
        }
    }
    match &s.runtime_dir {
        Some(dir) => path::join_text(dir.as_str(), "vkslang"),
        None => {
            let mut name: Vec<char> = text::chars_of("vkslang-");
            text::append(&mut name, text::write_number(s.uid as u64).as_slice());
            let base: Vec<char> = text::chars_of(s.temp_dir.as_str());
            text::text_of(path::join(base.as_slice(), name.as_slice()).as_slice())
        },
    }
}

fn same_place(a: &str, b: &str) -> (r: bool)
    ensures
        r == (path::components(a@) == path::components(b@)),
{
    let x: Vec<Vec<char>> = path::parts(text::chars_of(a).as_slice());
    let y: Vec<Vec<char>> = path::parts(text::chars_of(b).as_slice());
    if x.len() != y.len() {
        assert(text::contents(x@).len() != text::contents(y@).len());
        return false;
    }
    let mut i: usize = 0;
    while i < x.len()
        invariant
            i <= x@.len(),
            x@.len() == y@.len(),
            text::contents(x@) == path::components(a@),
            text::contents(y@) == path::components(b@),
            forall|j: int| 0 <= j < i ==> x@[j]@ == y@[j]@,
        decreases x@.len() - i,
    {
        if !text::same(x[i].as_slice(), y[i].as_slice()) {
            assert(text::contents(x@)[i as int] != text::contents(y@)[i as int]);
            return false;
        }
        i = i + 1;
    }
    assert(text::contents(x@) =~= text::contents(y@));
    true
}

fn put_place(dirs: &mut Vec<String>, dir: String)
    ensures
        text::texts(final(dirs)@) == with_place(text::texts(old(dirs)@), dir@),
{
    let mut i: usize = 0;
    while i < dirs.len()
        invariant
            i <= dirs@.len(),
            dirs@ == old(dirs)@,
            forall|j: int|
                0 <= j < i ==> path::components(#[trigger] text::texts(dirs@)[j])
                    != path::components(dir@),
        decreases dirs@.len() - i,
    {
        if same_place(dirs[i].as_str(), dir.as_str()) {
            assert(path::components(text::texts(dirs@)[i as int]) == path::components(dir@));
            return;
        }
        i = i + 1;
    }
    dirs.push(dir);
    assert(text::texts(dirs@) =~= text::texts(old(dirs)@).push(dir@));
}

/// Every directory sockets may live in, for a client looking for processes.
pub fn socket_dirs(s: &Surroundings) -> (r: Vec<String>)
    ensures
        text::texts(r@) == places(*s),
{
    let mut dirs: Vec<String> = Vec::new();
    dirs.push(socket_dir(s));
    assert(text::texts(dirs@) =~= seq![place(*s)]);
    if let Some(dir) = &s.runtime_dir {
        put_place(&mut dirs, path::join_text(dir.as_str(), "vkslang"));
    }
    if let Some(home) = &s.home {
        put_place(&mut dirs, path::join_text(home.as_str(), ".local/state/vkslang"));
    }
    dirs
}

/// A client looks where a process puts its socket, in or out of a container.
pub proof fn lemma_place_is_searched(client: Surroundings, process: Surroundings)
    requires
        client.socket_dir == process.socket_dir,
        client.home == process.home,
        process.in_container ==> process.home is Some,
        !process.in_container ==> client.runtime_dir == process.runtime_dir,
        client.temp_dir == process.temp_dir,
        client.uid == process.uid,
        !process.in_container && process.runtime_dir is None ==> !client.in_container,
    ensures
        listed(places(client), place(process)),
{
    let a = seq![place(client)];
    let b = if client.runtime_dir is Some {
        with_place(a, runtime_place(client.runtime_dir->0@))
    } else {
        a
    };
    let all = places(client);
    assert(all[0] == place(client));
    if client.socket_dir is None {
        if process.in_container {
            let dir = home_place(client.home->0@);
            lemma_with_place(b, dir, dir);
        } else if process.runtime_dir is Some {
            let dir = runtime_place(client.runtime_dir->0@);
            lemma_with_place(a, dir, dir);
            if client.home is Some {
                lemma_with_place(b, home_place(client.home->0@), dir);
            }
        }
    }
}

proof fn lemma_with_place(dirs: Seq<Seq<char>>, dir: Seq<char>, other: Seq<char>)
    ensures
        listed(dirs, other) || path::components(other) == path::components(dir) ==> listed(
            with_place(dirs, dir),
            other,
        ),
{
    let all = with_place(dirs, dir);
    if listed(dirs, other) {
        let i = choose|i: int|
            0 <= i < dirs.len() && path::components(#[trigger] dirs[i]) == path::components(other);
        assert(all[i] == dirs[i]);
    } else if path::components(other) == path::components(dir) {
        if !listed(dirs, dir) {
            assert(all[dirs.len() as int] == dir);
        } else {
            let i = choose|i: int|
                0 <= i < dirs.len() && path::components(#[trigger] dirs[i]) == path::components(dir);
            assert(all[i] == dirs[i]);
        }
    }
}

/// Socket of process `pid`.
pub fn socket_path(s: &Surroundings, pid: u32) -> (r: String)
    ensures
        r@ == path::within(place(*s), socket_name(pid)),
{
    let mut name: Vec<char> = text::write_number(pid as u64);
    text::append_text(&mut name, ".sock");
    let dir: Vec<char> = text::chars_of(socket_dir(s).as_str());
    text::text_of(path::join(dir.as_slice(), name.as_slice()).as_slice())
}

/// The process that a file name stands for, if it is a socket's.
pub open spec fn pid_in(name: Seq<char>) -> Option<u32> {
    if path::extension_of(name) == Some("sock"@) {
        text::unsigned_value(path::stem_of(name))
    } else {
        None
    }
}

/// The process that a file name stands for, if it is a socket's.
pub fn pid_of(name: &[char]) -> (r: Option<u32>)
    ensures
        r == pid_in(name@),
{
    match path::extension(name) {
        Some(e) => {
            if text::same_text(e, "sock") {
                text::parse_unsigned(path::stem(name))
            } else {
                None
            }
        },
        None => None,
    }
}

/// The socket of a process is found again under the process's number.
pub proof fn lemma_socket_name(pid: u32)
    ensures
        pid_in(socket_name(pid)) == Some(pid),
{
    let d = text::decimal(pid as nat);
    let s = socket_name(pid);
    reveal_strlit(".sock");
    reveal_strlit("sock");
    text::lemma_decimal(pid as nat);
    text::lemma_unsigned_round_trip(pid);
    let n = d.len() + 1;
    assert(s.drop_last() =~= d + seq!['.', 's', 'o', 'c']);
    assert(s.drop_last().drop_last() =~= d + seq!['.', 's', 'o']);
    assert(s.drop_last().drop_last().drop_last() =~= d + seq!['.', 's']);
    assert(s.drop_last().drop_last().drop_last().drop_last() =~= d + seq!['.']);
    reveal_with_fuel(path::through_last, 6);
    assert(path::through_last(s, '.') == n);
    assert(s.take(n - 1) =~= d);
    assert(s.skip(n as int) =~= "sock"@);
}

/// The sockets found: for each process the first one, directory by directory.
pub open spec fn gathered(
    found: Map<u32, Seq<char>>,
    dir: Seq<char>,
    names: Seq<Seq<char>>,
) -> Map<u32, Seq<char>>
    decreases names.len(),
{
    if names.len() == 0 {
        found
    } else {
        let before = gathered(found, dir, names.drop_last());
        match pid_in(names.last()) {
            Some(pid) => if before.dom().contains(pid) {
                before
            } else {
                before.insert(pid, path::within(dir, names.last()))
            },
            None => before,
        }
    }
}

/// The sockets found in the first `n` directories.
pub open spec fn sockets_in(dirs: Seq<String>, names: Seq<Vec<String>>, n: int) -> Map<
    u32,
    Seq<char>,
>
    decreases n,
{
    if n <= 0 || n > dirs.len() || n > names.len() {
        Map::empty()
    } else {
        gathered(sockets_in(dirs, names, n - 1), dirs[n - 1]@, text::texts(names[n - 1]@))
    }
}

/// `v` lists the entries of `m` in the order of their numbers.
pub open spec fn lists(v: Seq<(u32, String)>, m: Map<u32, Seq<char>>) -> bool {
    &&& forall|i: int, j: int| 0 <= i < j < v.len() ==> (#[trigger] v[i]).0 < (#[trigger] v[j]).0
    &&& forall|i: int|
        0 <= i < v.len() ==> m.dom().contains((#[trigger] v[i]).0) && m[v[i].0] == v[i].1@
    &&& forall|p: u32|
        m.dom().contains(p) ==> exists|i: int| 0 <= i < v.len() && (#[trigger] v[i]).0 == p
}

fn put_socket(out: &mut Vec<(u32, String)>, pid: u32, path: String, Ghost(m): Ghost<Map<u32, Seq<char>>>)
    requires
        lists(old(out)@, m),
    ensures
        lists(
            final(out)@,
            if m.dom().contains(pid) {
                m
            } else {
                m.insert(pid, path@)
            },
        ),
{
    let mut at: usize = 0;
    while at < out.len() && out[at].0 < pid
        invariant
            at <= out@.len(),
            forall|j: int| 0 <= j < at ==> (#[trigger] out@[j]).0 < pid,
        decreases out@.len() - at,
    {
        at = at + 1;
    }
    if at < out.len() && out[at].0 == pid {
        return;
    }
    let ghost before = out@;
    proof {
        if m.dom().contains(pid) {
            let i = choose|i: int| 0 <= i < before.len() && (#[trigger] before[i]).0 == pid;
            assert(i >= at);
            if i > at {
                assert(before[at as int].0 < before[i].0);
            }
        }
    }
    out.insert(at, (pid, path));
    proof {
        let m2 = m.insert(pid, path@);
        assert forall|i: int, j: int| 0 <= i < j < out@.len() implies (#[trigger] out@[i]).0 < (
        #[trigger] out@[j]).0 by {
            let i0 = if i < at { i } else { i - 1 };
            let j0 = if j < at { j } else { j - 1 };
            if i != at && j != at {
                assert(out@[i] == before[i0] && out@[j] == before[j0]);
            } else if i == at {
                assert(out@[j] == before[j0]);
                if j0 > at {
                    assert(before[at as int].0 < before[j0].0);
                }
            }
        }
        assert forall|i: int| 0 <= i < out@.len() implies m2.dom().contains((#[trigger] out@[i]).0)
            && m2[out@[i].0] == out@[i].1@ by {
            if i != at {
                let i0 = if i < at { i } else { i - 1 };
                assert(out@[i] == before[i0]);
                assert(before[i0].0 != pid);
            }
        }
        assert forall|p: u32| m2.dom().contains(p) implies exists|i: int|
            0 <= i < out@.len() && (#[trigger] out@[i]).0 == p by {
            if p == pid {
                assert(out@[at as int].0 == p);
            } else {
                let i0 = choose|i: int| 0 <= i < before.len() && (#[trigger] before[i]).0 == p;
                let i = if i0 < at { i0 } else { i0 + 1 };
                assert(out@[i] == before[i0]);
            }
        }
    }
}

/// Sockets currently present, as `(pid, path)`, across every directory, given
/// the file names in each. Some may be stale.
pub fn list_sockets(dirs: &Vec<String>, names: &Vec<Vec<String>>) -> (r: Vec<(u32, String)>)
    requires
        dirs@.len() == names@.len(),
    ensures
        lists(r@, sockets_in(dirs@, names@, dirs@.len() as int)),
{
    let mut out: Vec<(u32, String)> = Vec::new();
    let mut i: usize = 0;
    while i < dirs.len()
        invariant
            i <= dirs@.len(),
            dirs@.len() == names@.len(),
            lists(out@, sockets_in(dirs@, names@, i as int)),
        decreases dirs@.len() - i,
    {
        let base: Vec<char> = text::chars_of(dirs[i].as_str());
        let ghost start = sockets_in(dirs@, names@, i as int);
        let ghost all = text::texts(names@[i as int]@);
        let mut j: usize = 0;
        assert(all.take(0) =~= Seq::empty());
        while j < names[i].len()
            invariant
                i < dirs@.len(),
                dirs@.len() == names@.len(),
                j <= names@[i as int]@.len(),
                base@ == dirs@[i as int]@,
                all == text::texts(names@[i as int]@),
                lists(out@, gathered(start, base@, all.take(j as int))),
            decreases names@[i as int]@.len() - j,
        {
            let name: Vec<char> = text::chars_of(names[i][j].as_str());
            assert(name@ == all[j as int]);
            assert(all.take(j as int + 1).drop_last() =~= all.take(j as int));
            assert(all.take(j as int + 1).last() == name@);
            if let Some(pid) = pid_of(name.as_slice()) {
                let path: String = text::text_of(
                    path::join(base.as_slice(), name.as_slice()).as_slice(),
                );
                put_socket(
                    &mut out,
                    pid,
                    path,
                    Ghost(gathered(start, base@, all.take(j as int))),
                );
            }
            j = j + 1;
        }
        assert(all.take(j as int) =~= all);
        i = i + 1;
    }
    out
}

/// What to say about an answer that could not be read: another protocol
/// version than expected, if that is what the answer names.
pub open spec fn version_complaint(protocol: Option<u32>) -> Option<Seq<char>> {
    match protocol {
        Some(v) => if v != PROTOCOL_VERSION {
            Some(
                "layer speaks protocol v"@ + text::decimal(v as nat) + ", this build expects v"@
                    + text::decimal(PROTOCOL_VERSION as nat)
                    + " (restart the application with the updated layer)"@,
            )
        } else {
            None
        },
        None => None,
    }
}

pub fn version_mismatch(protocol: Option<u32>) -> (r: Option<String>)
    ensures
        match r {
            Some(s) => version_complaint(protocol) == Some(s@),
            None => version_complaint(protocol) is None,
        },
{
    match protocol {
        Some(v) => {
            if v == PROTOCOL_VERSION {
                return None;
            }
            let mut out: Vec<char> = text::chars_of("layer speaks protocol v");
            text::append(&mut out, text::write_number(v as u64).as_slice());
            text::append_text(&mut out, ", this build expects v");
            text::append(&mut out, text::write_number(PROTOCOL_VERSION as u64).as_slice());
            text::append_text(&mut out, " (restart the application with the updated layer)");
            Some(text::text_of(out.as_slice()))
        },
        None => None,
    }
}

/// Where a process puts its socket: where it is told to; else, in a container,
/// below the home directory, which is shared; else in the runtime directory; else
/// below the directory for temporary files, apart from other users.
pub proof fn lemma_place(s: Surroundings)
    ensures
        s.socket_dir is Some ==> place(s) == s.socket_dir->0@,
        s.socket_dir is None && s.in_container && s.home is Some ==> place(s) == path::within(
            s.home->0@,
            ".local/state/vkslang"@,
        ),
        s.socket_dir is None && !(s.in_container && s.home is Some) && s.runtime_dir is Some
            ==> place(s) == path::within(s.runtime_dir->0@, "vkslang"@),
        s.socket_dir is None && !(s.in_container && s.home is Some) && s.runtime_dir is None
            ==> place(s) == path::within(s.temp_dir@, "vkslang-"@ + text::decimal(s.uid as nat)),
        places(s)[0] == place(s),
        1 <= places(s).len() <= 3,
{
}

/// A layer of another version is complained about, and no other.
pub proof fn lemma_versions(protocol: Option<u32>)
    ensures
        version_complaint(protocol) is Some <==> protocol is Some && protocol->0
            != PROTOCOL_VERSION,
{
}

/// A socket that is found is one of the files, in its directory, under the
/// number of its process; what was found before stays.
pub proof fn lemma_gathered(
    found: Map<u32, Seq<char>>,
    dir: Seq<char>,
    names: Seq<Seq<char>>,
    pid: u32,
)
    ensures
        found.dom().contains(pid) ==> gathered(found, dir, names).dom().contains(pid) && gathered(
            found,
            dir,
            names,
        )[pid] == found[pid],
        !found.dom().contains(pid) ==> (gathered(found, dir, names).dom().contains(pid)
            <==> exists|i: int| 0 <= i < names.len() && pid_in(#[trigger] names[i]) == Some(pid)),
        !found.dom().contains(pid) && gathered(found, dir, names).dom().contains(pid) ==> exists|
            i: int,
        |
            0 <= i < names.len() && pid_in(#[trigger] names[i]) == Some(pid) && gathered(
                found,
                dir,
                names,
            )[pid] == path::within(dir, names[i]),
    decreases names.len(),
{
    if names.len() > 0 {
        let front = names.drop_last();
        let before = gathered(found, dir, front);
        let now = gathered(found, dir, names);
        lemma_gathered(found, dir, front, pid);
        assert(names[names.len() - 1] == names.last());
        if !found.dom().contains(pid) {
            if before.dom().contains(pid) {
                let i = choose|i: int|
                    0 <= i < front.len() && pid_in(#[trigger] front[i]) == Some(pid) && before[pid]
                        == path::within(dir, front[i]);
                assert(names[i] == front[i]);
                assert(now[pid] == before[pid]);
            } else if exists|i: int|
                0 <= i < names.len() && pid_in(#[trigger] names[i]) == Some(pid) {
                let i = choose|i: int|
                    0 <= i < names.len() && pid_in(#[trigger] names[i]) == Some(pid);
                if i < front.len() {
                    assert(front[i] == names[i]);
                }
            }
        }
    }
}

/// Of two directories the first counts: a process that was found in one is not
/// looked for in the next.
pub proof fn lemma_first_directory_counts(
    dirs: Seq<String>,
    names: Seq<Vec<String>>,
    n: int,
    pid: u32,
)
    requires
        0 < n <= dirs.len(),
        n <= names.len(),
        sockets_in(dirs, names, n - 1).dom().contains(pid),
    ensures
        sockets_in(dirs, names, n).dom().contains(pid),
        sockets_in(dirs, names, n)[pid] == sockets_in(dirs, names, n - 1)[pid],
{
    lemma_gathered(
        sockets_in(dirs, names, n - 1),
        dirs[n - 1]@,
        text::texts(names[n - 1]@),
        pid,
    );
}

} // verus!
