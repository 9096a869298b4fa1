//! The multiplayer lobby: the list of game rooms announced on the local
//! network, one entry per room name.
use vstd::prelude::*;
use vstd::string::StringExecFns;

verus! {

/// UDP port on which rooms are announced and listened for.
pub const LISTEN_PORT: i32 = 8912;
/// Port of the game server a client connects to.
pub const GAME_PORT: i32 = 55555;

/// A room of the list: its name and the address it was last heard from.
pub struct Room {
    pub name: String,
    pub ip: String,
}

/// A room as a value.
pub struct RoomView {
    pub name: Seq<char>,
    pub ip: Seq<char>,
}

impl View for Room {
    type V = RoomView;

    open spec fn view(&self) -> RoomView {
        RoomView { name: self.name@, ip: self.ip@ }
    }
}

/// What an announcement did to the list.
#[derive(Clone, Copy, Debug, PartialEq, Eq, Structural)]
pub enum RoomUpdate {
    /// The room at this position was known: its address was updated.
    Updated(usize),
    /// The room was new: it was added at the end.
    Added,
}

/// The name under which an announcement is listed: its `name` entry, or
/// "Unnamed" where it has none.
pub open spec fn room_name(name: Option<Seq<char>>) -> Seq<char> {
    match name {
        Some(n) => n,
        None => "Unnamed"@,
    }
}

/// A character that a scene node's name may hold; the engine replaces the
/// others (`.` `:` `@` `/` `"` `%`) when a node is named.
pub open spec fn is_node_name_char(c: char) -> bool {
    c != '.' && c != ':' && c != '@' && c != '/' && c != '"' && c != '%'
}

/// A name that the engine keeps as it is when it names a node.
pub open spec fn valid_node_name(n: Seq<char>) -> bool {
    forall|i: int| 0 <= i < n.len() ==> is_node_name_char(#[trigger] n[i])
}

/// A letter or digit of ASCII, or a space.
pub open spec fn plain_name_char(c: char) -> bool {
    ('a' <= c && c <= 'z') || ('A' <= c && c <= 'Z') || ('0' <= c && c <= '9') || c == ' '
}

/// A name made of letters, digits and spaces is kept as it is when a node
/// is named with it.
pub proof fn law_plain_names_are_kept(n: Seq<char>)
    requires
        forall|i: int| 0 <= i < n.len() ==> plain_name_char(#[trigger] n[i]),
    ensures
        valid_node_name(n),
{
}

/// Whether a name is kept as it is when a node is named with it.
pub fn is_valid_node_name(name: &str) -> (r: bool)
    ensures
        r == valid_node_name(name@),
        (forall|i: int| 0 <= i < name@.len() ==> plain_name_char(#[trigger] name@[i])) ==> r,
{
    broadcast use vstd::string::axiom_spec_iter;
    let mut ok = true;
    for c in it: name.chars()
        invariant
            it.seq() == name@,
            ok == (forall|i: int| 0 <= i < it.index() ==> is_node_name_char(#[trigger] name@[i])),
    {
        if c == '.' || c == ':' || c == '@' || c == '/' || c == '"' || c == '%' {
            ok = false;
        }
    }
    ok
}

/// No valid node name names two rooms of the list (an invalid name is
/// rewritten by the engine, so it never matches a row and may repeat).
pub open spec fn names_distinct(rs: Seq<RoomView>) -> bool {
    forall|i: int, j: int| 0 <= i < j < rs.len() && (#[trigger] rs[i]).name == (#[trigger] rs[j]).name
        ==> !valid_node_name(rs[i].name)
}

/// Row `i` of the list holds a room named `n`.
pub open spec fn named_at(rs: Seq<RoomView>, n: Seq<char>, i: int) -> bool {
    0 <= i < rs.len() && rs[i].name == n
}

/// The list after room `n` is heard from `ip`: a row of that (valid) name
/// gets the new address, and otherwise a row is added at the end.
pub open spec fn announce(rs: Seq<RoomView>, n: Seq<char>, ip: Seq<char>) -> Seq<RoomView> {
    if valid_node_name(n) && exists|i: int| named_at(rs, n, i) {
        rs.update(choose|i: int| named_at(rs, n, i), RoomView { name: n, ip })
    } else {
        rs.push(RoomView { name: n, ip })
    }
}

/// The list after a sequence of announcements (name, address), in order.
pub open spec fn announce_all(rs: Seq<RoomView>, anns: Seq<(Seq<char>, Seq<char>)>) -> Seq<RoomView>
    decreases anns.len(),
{
    if anns.len() == 0 {
        rs
    } else {
        announce(announce_all(rs, anns.drop_last()), anns.last().0, anns.last().1)
    }
}

/// The address of the last announcement of name `n`, if any.
pub open spec fn last_ip(anns: Seq<(Seq<char>, Seq<char>)>, n: Seq<char>) -> Option<Seq<char>>
    decreases anns.len(),
{
    if anns.len() == 0 {
        None
    } else if anns.last().0 == n {
        Some(anns.last().1)
    } else {
        last_ip(anns.drop_last(), n)
    }
}

/// Announcing a room whose name (made of letters, digits and spaces)
/// already has a row updates that row's address and adds no row.
pub proof fn law_plain_name_updates_its_row(rs: Seq<RoomView>, n: Seq<char>, ip: Seq<char>, i: int)
    requires
        names_distinct(rs),
        forall|k: int| 0 <= k < n.len() ==> plain_name_char(#[trigger] n[k]),
        0 <= i < rs.len(),
        rs[i].name == n,
    ensures
        announce(rs, n, ip).len() == rs.len(),
        announce(rs, n, ip)[i] == (RoomView { name: n, ip }),
        forall|k: int| 0 <= k < rs.len() && k != i ==> #[trigger] announce(rs, n, ip)[k] == rs[k],
{
    law_plain_names_are_kept(n);
    assert(named_at(rs, n, i));
    let j = choose|j: int| named_at(rs, n, j);
    if j != i {
        if j < i {
            assert(rs[j].name == rs[i].name);
        } else {
            assert(rs[i].name == rs[j].name);
        }
    }
}

/// After any sequence of announcements, each valid name that was announced
/// has exactly one row, holding the address of its last announcement; the
/// rows that were there keep their names, and those whose names were not
/// announced are unchanged; every added row is of an announced name; and
/// still no valid name has two rows.
pub proof fn law_announcements(rs: Seq<RoomView>, anns: Seq<(Seq<char>, Seq<char>)>)
    requires
        names_distinct(rs),
    ensures
        names_distinct(announce_all(rs, anns)),
        announce_all(rs, anns).len() >= rs.len(),
        forall|i: int| 0 <= i < rs.len() ==> (#[trigger] announce_all(rs, anns)[i]).name == rs[i].name,
        forall|i: int| 0 <= i < rs.len() && last_ip(anns, rs[i].name) is None
            ==> #[trigger] announce_all(rs, anns)[i] == rs[i],
        forall|i: int| rs.len() <= i < announce_all(rs, anns).len()
            ==> last_ip(anns, (#[trigger] announce_all(rs, anns)[i]).name) is Some,
        forall|k: int| 0 <= k < anns.len() && valid_node_name(#[trigger] anns[k].0) ==> exists|i: int|
            named_at(announce_all(rs, anns), anns[k].0, i)
                && Some(announce_all(rs, anns)[i].ip) == last_ip(anns, anns[k].0),
    decreases anns.len(),
{
    if anns.len() > 0 {
        let prev_anns = anns.drop_last();
        law_announcements(rs, prev_anns);
        let prev = announce_all(rs, prev_anns);
        let n = anns.last().0;
        let ip = anns.last().1;
        let res = announce_all(rs, anns);
        assert(res == announce(prev, n, ip));
        assert forall|m: Seq<char>| m != n implies last_ip(anns, m) == last_ip(prev_anns, m) by {}
        assert(last_ip(anns, n) == Some(ip));
        let upd = valid_node_name(n) && exists|i: int| named_at(prev, n, i);
        if upd {
            let j = choose|i: int| named_at(prev, n, i);
            assert(res == prev.update(j, RoomView { name: n, ip }));
            assert forall|i: int| 0 <= i < res.len() && i != j implies #[trigger] res[i] == prev[i] && prev[i].name != n by {
                if prev[i].name == n {
                    if i < j {
                        assert(prev[i].name == prev[j].name);
                    } else {
                        assert(prev[j].name == prev[i].name);
                    }
                }
            }
            assert forall|k: int| 0 <= k < anns.len() && valid_node_name(#[trigger] anns[k].0) implies exists|i: int|
                named_at(res, anns[k].0, i) && Some(res[i].ip) == last_ip(anns, anns[k].0) by {
                let m = anns[k].0;
                if m == n {
                    assert(named_at(res, m, j));
                } else {
                    assert(prev_anns[k] == anns[k]);
                    let i = choose|i: int| named_at(prev, m, i) && Some(prev[i].ip) == last_ip(prev_anns, m);
                    assert(res[i] == prev[i]);
                    assert(named_at(res, m, i));
                }
            }
        } else {
            assert(res == prev.push(RoomView { name: n, ip }));
            assert forall|i: int, i2: int| 0 <= i < i2 < res.len() && (#[trigger] res[i]).name == (#[trigger] res[i2]).name
                implies !valid_node_name(res[i].name) by {
                if i2 == prev.len() {
                    if valid_node_name(n) {
                        assert(named_at(prev, n, i));
                    }
                } else {
                    assert(res[i] == prev[i] && res[i2] == prev[i2]);
                }
            }
            assert forall|k: int| 0 <= k < anns.len() && valid_node_name(#[trigger] anns[k].0) implies exists|i: int|
                named_at(res, anns[k].0, i) && Some(res[i].ip) == last_ip(anns, anns[k].0) by {
                let m = anns[k].0;
                if m == n {
                    assert(named_at(res, m, prev.len() as int));
                } else {
                    assert(prev_anns[k] == anns[k]);
                    let i = choose|i: int| named_at(prev, m, i) && Some(prev[i].ip) == last_ip(prev_anns, m);
                    assert(res[i] == prev[i]);
                    assert(named_at(res, m, i));
                }
            }
        }
    }
}

/// The name under which an announcement with an optional `name` entry is
/// listed.
pub open spec fn announced_name(name: &Option<String>) -> Seq<char> {
    room_name(match name { Some(s) => Some(s@), None => None })
}

/// The lobby's room list, in the order the rooms were first heard.
pub struct MultiplayerScene {
    pub rooms: Vec<Room>,
}

impl MultiplayerScene {
    pub open spec fn view_rooms(&self) -> Seq<RoomView> {
        self.rooms@.map_values(|r: Room| r@)
    }

    /// An empty list.
    pub fn new() -> (s: MultiplayerScene)
        ensures
            s.view_rooms() == Seq::<RoomView>::empty(),
            names_distinct(s.view_rooms()),
    {
        MultiplayerScene { rooms: Vec::new() }
    }

    /// Takes a room announcement heard from `ip` (its `name` entry, where
    /// it has one, else "Unnamed"): where the name is one the engine keeps
    /// as a node name, the first room of that name gets the new address;
    /// otherwise (a new name, or one the engine would rewrite, which never
    /// matches a row) a room is added at the end.
    pub fn process_room_info(&mut self, name: Option<String>, ip: String) -> (r: RoomUpdate)
        ensures
            ({
                let n = announced_name(&name);
                let rs = old(self).view_rooms();
                match r {
                    RoomUpdate::Updated(i) => {
                        &&& valid_node_name(n)
                        &&& 0 <= i < rs.len()
                        &&& rs[i as int].name == n
                        &&& forall|k: int| 0 <= k < i ==> (#[trigger] rs[k]).name != n
                        &&& final(self).view_rooms() == rs.update(i as int, RoomView { name: n, ip: ip@ })
                    },
                    RoomUpdate::Added => {
                        &&& valid_node_name(n) ==> forall|k: int| 0 <= k < rs.len() ==> (#[trigger] rs[k]).name != n
                        &&& final(self).view_rooms() == rs.push(RoomView { name: n, ip: ip@ })
                    },
                }
            }),
            names_distinct(old(self).view_rooms()) ==> names_distinct(final(self).view_rooms())
                && final(self).view_rooms() == announce(
                    old(self).view_rooms(),
                    announced_name(&name),
                    ip@,
                ),
    {
        let ghost rs = old(self).view_rooms();
        let ghost nn = announced_name(&name);
        let n = match name {
            Some(s) => s,
            None => String::from_str("Unnamed"),
        };
        assert(n@ == nn);
        if is_valid_node_name(n.as_str()) {
            let mut i: usize = 0;
            while i < self.rooms.len()
                invariant
                    i <= self.rooms@.len(),
                    self.view_rooms() == rs,
                    rs == old(self).view_rooms(),
                    n@ == nn,
                    nn == announced_name(&name),
                    valid_node_name(nn),
                    forall|k: int| 0 <= k < i ==> (#[trigger] rs[k]).name != n@,
                decreases self.rooms@.len() - i,
            {
                if self.rooms[i].name == n {
                    assert(rs[i as int].name == n@);
                    let mut room = self.rooms.remove(i);
                    room.ip = ip;
                    self.rooms.insert(i, room);
                    assert(self.view_rooms() =~= rs.update(i as int, RoomView { name: n@, ip: ip@ }));
                    proof {
                        if names_distinct(rs) {
                            assert(named_at(rs, nn, i as int));
                            let j = choose|j: int| named_at(rs, nn, j);
                            if j != i {
                                if j < i {
                                    assert(rs[j].name == rs[i as int].name);
                                } else {
                                    assert(rs[i as int].name == rs[j].name);
                                }
                            }
                        }
                    }
                    return RoomUpdate::Updated(i);
                }
                i = i + 1;
            }
        }
        self.rooms.push(Room { name: n, ip });
        assert(self.view_rooms() =~= rs.push(RoomView { name: n@, ip: ip@ }));
        proof {
            if valid_node_name(nn) {
                assert(!exists|j: int| named_at(rs, nn, j));
            }
        }
        RoomUpdate::Added
    }
}

} // verus!
