//! What a walkthrough writes down for the page that draws it: rooms, doors,
//! sources, and one entry per simulation tick. Numbers with a fraction arrive
//! as text.

use vstd::prelude::*;
use vstd::string::*;

verus! {

/// One digit.
pub open spec fn digit(d: nat) -> Seq<char> {
    if d == 0 {
        "0"@
    } else if d == 1 {
        "1"@
    } else if d == 2 {
        "2"@
    } else if d == 3 {
        "3"@
    } else if d == 4 {
        "4"@
    } else if d == 5 {
        "5"@
    } else if d == 6 {
        "6"@
    } else if d == 7 {
        "7"@
    } else if d == 8 {
        "8"@
    } else {
        "9"@
    }
}

fn digit_of(d: usize) -> (r: &'static str)
    requires
        d < 10,
    ensures
        r@ == digit(d as nat),
{
    match d {
        0 => "0",
        1 => "1",
        2 => "2",
        3 => "3",
        4 => "4",
        5 => "5",
        6 => "6",
        7 => "7",
        8 => "8",
        _ => "9",
    }
}

/// A whole number, written out.
pub open spec fn decimal(n: nat) -> Seq<char>
    decreases n,
{
    if n < 10 {
        digit(n)
    } else {
        decimal(n / 10) + digit(n % 10)
    }
}

fn decimal_of(n: usize) -> (r: String)
    ensures
        r@ == decimal(n as nat),
    decreases n,
{
    if n < 10 {
        String::from_str(digit_of(n))
    } else {
        let mut r: String = decimal_of(n / 10);
        r.append(digit_of(n % 10));
        r
    }
}

/// The texts that strings hold.
pub open spec fn texts(items: Seq<String>) -> Seq<Seq<char>> {
    Seq::new(items.len(), |i: int| items[i]@)
}

/// Texts with commas between them.
pub open spec fn joined(items: Seq<Seq<char>>) -> Seq<char>
    decreases items.len(),
{
    if items.len() == 0 {
        Seq::empty()
    } else if items.len() == 1 {
        items[0]
    } else {
        joined(items.drop_last()) + ","@ + items.last()
    }
}

fn join(items: &Vec<String>) -> (r: String)
    ensures
        r@ == joined(texts(items@)),
{
    let ghost all = texts(items@);
    let mut r: String = String::new();
    let mut i: usize = 0;
    while i < items.len()
        invariant
            i <= items@.len(),
            all == texts(items@),
            r@ == joined(all.take(i as int)),
        decreases items@.len() - i,
    {
        if i > 0 {
            r.append(",");
        }
        let ghost before = r@;
        r.append(items[i].as_str());
        i = i + 1;
        proof {
            assert(all.take(i as int).drop_last() =~= all.take(i - 1));
            assert(all.take(i as int).last() == items@[i - 1]@);
            if i == 1 {
                assert(before =~= Seq::empty());
                assert(r@ =~= items@[0]@);
            }
        }
    }
    assert(all.take(i as int) =~= all);
    r
}

/// Two numbers in brackets.
pub open spec fn pair(p: (Seq<char>, Seq<char>)) -> Seq<char> {
    "["@ + p.0 + ","@ + p.1 + "]"@
}

fn pair_of(p: &(String, String)) -> (r: String)
    ensures
        r@ == pair((p.0@, p.1@)),
{
    let mut r: String = String::from_str("[");
    r.append(p.0.as_str());
    r.append(",");
    r.append(p.1.as_str());
    r.append("]");
    r
}

/// The points of a route.
pub open spec fn points(route: Seq<(String, String)>) -> Seq<Seq<char>> {
    Seq::new(route.len(), |i: int| pair((route[i].0@, route[i].1@)))
}

/// A route: its points in brackets.
pub open spec fn route_text(route: Seq<(String, String)>) -> Seq<char> {
    "["@ + joined(points(route)) + "]"@
}

fn route_of(route: &Vec<(String, String)>) -> (r: String)
    ensures
        r@ == route_text(route@),
{
    let mut pts: Vec<String> = Vec::new();
    let mut i: usize = 0;
    while i < route.len()
        invariant
            i <= route@.len(),
            texts(pts@) == points(route@).take(i as int),
        decreases route@.len() - i,
    {
        let ghost before = pts@;
        pts.push(pair_of(&route[i]));
        i = i + 1;
        assert(texts(pts@) =~= texts(before).push(points(route@)[i - 1]));
        assert(texts(pts@) =~= points(route@).take(i as int));
    }
    assert(points(route@).take(i as int) =~= points(route@));
    let mut r: String = String::from_str("[");
    r.append(join(&pts).as_str());
    r.append("]");
    r
}

/// One simulation tick, its numbers as text.
#[derive(Debug)]
pub struct TickText {
    pub t: String,
    pub pos: (String, String),
    pub yaw: String,
    pub room: usize,
    pub rt60: String,
    pub routes: Vec<Vec<(String, String)>>,
}

impl TickText {
    pub open spec fn route_texts(self) -> Seq<Seq<char>> {
        Seq::new(self.routes@.len(), |i: int| route_text(self.routes@[i]@))
    }

    /// The tick's entry.
    pub open spec fn text(self) -> Seq<char> {
        "{\"t\":"@ + self.t@ + ",\"pos\":"@ + pair((self.pos.0@, self.pos.1@)) + ",\"yaw\":"@
            + self.yaw@ + ",\"room\":"@ + decimal(self.room as nat) + ",\"rt60\":"@ + self.rt60@
            + ",\"routes\":["@ + joined(self.route_texts()) + "]}"@
    }

    pub fn write(&self) -> (r: String)
        ensures
            r@ == self.text(),
    {
        let mut routes: Vec<String> = Vec::new();
        let mut i: usize = 0;
        while i < self.routes.len()
            invariant
                i <= self.routes@.len(),
                texts(routes@) == self.route_texts().take(i as int),
            decreases self.routes@.len() - i,
        {
            let ghost before = routes@;
            routes.push(route_of(&self.routes[i]));
            i = i + 1;
            assert(texts(routes@) =~= texts(before).push(self.route_texts()[i - 1]));
            assert(texts(routes@) =~= self.route_texts().take(i as int));
        }
        assert(self.route_texts().take(i as int) =~= self.route_texts());
        let mut r: String = String::from_str("{\"t\":");
        r.append(self.t.as_str());
        r.append(",\"pos\":");
        r.append(pair_of(&self.pos).as_str());
        r.append(",\"yaw\":");
        r.append(self.yaw.as_str());
        r.append(",\"room\":");
        r.append(decimal_of(self.room).as_str());
        r.append(",\"rt60\":");
        r.append(self.rt60.as_str());
        r.append(",\"routes\":[");
        r.append(join(&routes).as_str());
        r.append("]}");
        r
    }
}

/// The entries so far with one more.
pub open spec fn with_entry(entries: Seq<char>, entry: Seq<char>) -> Seq<char> {
    if entries.len() == 0 {
        entry
    } else {
        entries + ","@ + entry
    }
}

/// Entries added one by one.
pub open spec fn piled(entries: Seq<Seq<char>>) -> Seq<char>
    decreases entries.len(),
{
    if entries.len() == 0 {
        Seq::empty()
    } else {
        with_entry(piled(entries.drop_last()), entries.last())
    }
}

/// Entries added one by one, none of them empty, stand joined by commas.
pub proof fn piled_entries_are_joined(entries: Seq<Seq<char>>)
    requires
        forall|i: int| 0 <= i < entries.len() ==> (#[trigger] entries[i]).len() > 0,
    ensures
        piled(entries) == joined(entries),
        entries.len() > 0 ==> piled(entries).len() > 0,
    decreases entries.len(),
{
    if entries.len() > 0 {
        piled_entries_are_joined(entries.drop_last());
        assert(entries.last().len() > 0);
        if entries.len() == 1 {
            assert(entries.drop_last().len() == 0);
            assert(piled(entries.drop_last()) =~= Seq::empty());
        }
    }
}

/// Add an entry.
pub fn add_entry(entries: &mut String, entry: &String)
    ensures
        final(entries)@ == with_entry(old(entries)@, entry@),
{
    let ghost before = entries@;
    if !entries.as_str().is_empty() {
        entries.append(",");
    }
    entries.append(entry.as_str());
    proof {
        if before.len() == 0 {
            assert(entries@ =~= entry@);
        }
    }
}

/// A room's name and corners.
#[derive(Debug)]
pub struct RoomText {
    pub name: String,
    pub min: (String, String),
    pub max: (String, String),
}

/// A door's place and the axis it lies across.
#[derive(Debug)]
pub struct DoorText {
    pub pos: (String, String),
    pub axis: usize,
}

/// A source's name, place and room.
#[derive(Debug)]
pub struct SourceText {
    pub name: String,
    pub pos: (String, String),
    pub room: usize,
}

/// What is written as one entry of a list.
pub trait Entry: Sized {
    spec fn text(&self) -> Seq<char>;

    fn write(&self) -> (r: String)
        ensures
            r@ == self.text(),
    ;
}

impl Entry for RoomText {
    open spec fn text(&self) -> Seq<char> {
        "{\"name\":\""@ + self.name@ + "\",\"min\":"@ + pair((self.min.0@, self.min.1@))
            + ",\"max\":"@ + pair((self.max.0@, self.max.1@)) + "}"@
    }

    fn write(&self) -> (r: String) {
        let mut r: String = String::from_str("{\"name\":\"");
        r.append(self.name.as_str());
        r.append("\",\"min\":");
        r.append(pair_of(&self.min).as_str());
        r.append(",\"max\":");
        r.append(pair_of(&self.max).as_str());
        r.append("}");
        r
    }
}

impl Entry for DoorText {
    open spec fn text(&self) -> Seq<char> {
        "{\"pos\":"@ + pair((self.pos.0@, self.pos.1@)) + ",\"axis\":"@ + decimal(
            self.axis as nat,
        ) + "}"@
    }

    fn write(&self) -> (r: String) {
        let mut r: String = String::from_str("{\"pos\":");
        r.append(pair_of(&self.pos).as_str());
        r.append(",\"axis\":");
        r.append(decimal_of(self.axis).as_str());
        r.append("}");
        r
    }
}

impl Entry for SourceText {
    open spec fn text(&self) -> Seq<char> {
        "{\"name\":\""@ + self.name@ + "\",\"pos\":"@ + pair((self.pos.0@, self.pos.1@))
            + ",\"room\":"@ + decimal(self.room as nat) + "}"@
    }

    fn write(&self) -> (r: String) {
        let mut r: String = String::from_str("{\"name\":\"");
        r.append(self.name.as_str());
        r.append("\",\"pos\":");
        r.append(pair_of(&self.pos).as_str());
        r.append(",\"room\":");
        r.append(decimal_of(self.room).as_str());
        r.append("}");
        r
    }
}

/// The whole document.
pub open spec fn document(
    duration: Seq<char>,
    rooms: Seq<RoomText>,
    doors: Seq<DoorText>,
    sources: Seq<SourceText>,
    ticks: Seq<char>,
) -> Seq<char> {
    "{\"duration\":"@ + duration + ",\"rooms\":["@ + joined(
        Seq::new(rooms.len(), |i: int| rooms[i].text()),
    ) + "],\"doors\":["@ + joined(Seq::new(doors.len(), |i: int| doors[i].text()))
        + "],\"sources\":["@ + joined(Seq::new(sources.len(), |i: int| sources[i].text()))
        + "],\"ticks\":["@ + ticks + "]}"@
}

fn list<T: Entry>(items: &Vec<T>) -> (r: String)
    ensures
        r@ == joined(Seq::new(items@.len(), |i: int| items@[i].text())),
{
    let ghost goal = Seq::new(items@.len(), |i: int| items@[i].text());
    let mut parts: Vec<String> = Vec::new();
    let mut i: usize = 0;
    while i < items.len()
        invariant
            i <= items@.len(),
            goal == Seq::new(items@.len(), |i: int| items@[i].text()),
            texts(parts@) == goal.take(i as int),
        decreases items@.len() - i,
    {
        let ghost before = parts@;
        parts.push(items[i].write());
        i = i + 1;
        assert(texts(parts@) =~= texts(before).push(goal[i - 1]));
        assert(texts(parts@) =~= goal.take(i as int));
    }
    assert(goal.take(i as int) =~= goal);
    join(&parts)
}

pub fn write_document(
    duration: &String,
    rooms: &Vec<RoomText>,
    doors: &Vec<DoorText>,
    sources: &Vec<SourceText>,
    ticks: &String,
) -> (r: String)
    ensures
        r@ == document(duration@, rooms@, doors@, sources@, ticks@),
{
    let mut r: String = String::from_str("{\"duration\":");
    r.append(duration.as_str());
    r.append(",\"rooms\":[");
    r.append(list(rooms).as_str());
    r.append("],\"doors\":[");
    r.append(list(doors).as_str());
    r.append("],\"sources\":[");
    r.append(list(sources).as_str());
    r.append("],\"ticks\":[");
    r.append(ticks.as_str());
    r.append("]}");
    r
}

} // verus!
