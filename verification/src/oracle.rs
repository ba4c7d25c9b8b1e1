//! What a filesystem answers, as a value.
//!
//! Resolution asks a filesystem two kinds of question about a path: whether a
//! symbolic link stands there and what its target text is, and whether
//! anything stands there and what its canonical form is. `Oracle` is the
//! mathematical model of the answers at one moment. `Snapshot` is a table of
//! answers that a program can fill and hand to the library.

use vstd::prelude::*;

verus! {

/// The answers of a filesystem at one moment.
pub struct Oracle {
    /// The paths at which a symbolic link can be read, each with the text of
    /// its target.
    pub links: Map<Seq<char>, Seq<char>>,
    /// The paths at which something exists, each with its canonical form.
    pub existing: Map<Seq<char>, Seq<char>>,
}

/// A question about one path.
pub enum Question {
    /// Is there a symbolic link at the path, and where does it point?
    ReadLink(Seq<char>),
    /// Does the path exist, and what is its canonical form?
    Canonicalize(Seq<char>),
}

impl Oracle {
    /// The oracle of a filesystem in which nothing exists.
    pub open spec fn empty() -> Oracle {
        Oracle { links: Map::empty(), existing: Map::empty() }
    }

    /// The target of the symbolic link at `path`, if one can be read there.
    pub open spec fn link_target(self, path: Seq<char>) -> Option<Seq<char>> {
        if self.links.dom().contains(path) {
            Some(self.links[path])
        } else {
            None
        }
    }

    /// The canonical form of `path`, if the path exists.
    pub open spec fn canonical(self, path: Seq<char>) -> Option<Seq<char>> {
        if self.existing.dom().contains(path) {
            Some(self.existing[path])
        } else {
            None
        }
    }

    /// The answer to `question`.
    pub open spec fn answer(self, question: Question) -> Option<Seq<char>> {
        match question {
            Question::ReadLink(path) => self.link_target(path),
            Question::Canonicalize(path) => self.canonical(path),
        }
    }

    /// Whether no symbolic link can be read anywhere.
    pub open spec fn has_no_links(self) -> bool {
        forall|path: Seq<char>| !self.links.dom().contains(path)
    }

    /// The oracle with a symbolic link at `path` that points to `target`.
    pub open spec fn with_link(self, path: Seq<char>, target: Seq<char>) -> Oracle {
        Oracle { links: self.links.insert(path, target), existing: self.existing }
    }

    /// The oracle in which `path` exists and has the canonical form
    /// `canonical`.
    pub open spec fn with_existing(self, path: Seq<char>, canonical: Seq<char>) -> Oracle {
        Oracle { links: self.links, existing: self.existing.insert(path, canonical) }
    }
}

/// What a filesystem replies to a question. Resolution goes by the text
/// alone: the three replies without a text all count as no answer, and it
/// goes on as if nothing stood at the path.
#[derive(Debug, PartialEq, Eq)]
pub enum Reply {
    /// The text asked for: the target of the link, or the canonical form.
    Text(String),
    /// Nothing stands at the path.
    NotFound,
    /// Something stands at the path, and it is no symbolic link.
    NotALink,
    /// The filesystem could not say.
    Failed,
}

impl View for Reply {
    type V = Option<Seq<char>>;

    open spec fn view(&self) -> Option<Seq<char>> {
        match self {
            Reply::Text(text) => Some(text@),
            Reply::NotFound | Reply::NotALink | Reply::Failed => None,
        }
    }
}

/// A question about one path, as a program asks it.
#[derive(Debug, PartialEq, Eq)]
pub enum Query {
    /// Is there a symbolic link at the path, and where does it point?
    ReadLink(String),
    /// Does the path exist, and what is its canonical form?
    Canonicalize(String),
}

impl View for Query {
    type V = Question;

    open spec fn view(&self) -> Question {
        match self {
            Query::ReadLink(path) => Question::ReadLink(path@),
            Query::Canonicalize(path) => Question::Canonicalize(path@),
        }
    }
}

/// One line of a table: a path and what is recorded for it.
struct Entry {
    path: String,
    value: String,
}

/// What a table records for `path`: the value of the last line with that
/// path.
spec fn lookup(lines: Seq<Entry>, path: Seq<char>) -> Option<Seq<char>>
    decreases lines.len(),
{
    if lines.len() == 0 {
        None
    } else if lines.last().path@ == path {
        Some(lines.last().value@)
    } else {
        lookup(lines.drop_last(), path)
    }
}

/// The map that a table stands for.
spec fn table(lines: Seq<Entry>) -> Map<Seq<char>, Seq<char>> {
    Map::new(
        |path: Seq<char>| lookup(lines, path).is_some(),
        |path: Seq<char>| lookup(lines, path).unwrap(),
    )
}

/// A table without lines stands for the empty map.
proof fn lemma_table_empty()
    ensures
        table(Seq::empty()) == Map::<Seq<char>, Seq<char>>::empty(),
{
    assert(table(Seq::empty()) =~= Map::<Seq<char>, Seq<char>>::empty());
}

/// One more line in a table is one more entry in the map, which takes the
/// place of an earlier one for the same path.
proof fn lemma_table_push(lines: Seq<Entry>, line: Entry)
    ensures
        table(lines.push(line)) == table(lines).insert(line.path@, line.value@),
{
    assert(lines.push(line).drop_last() =~= lines);
    assert(table(lines.push(line)) =~= table(lines).insert(line.path@, line.value@));
}

/// Looks `path` up in a table.
fn find(lines: &Vec<Entry>, path: &String) -> (reply: Reply)
    ensures
        reply@ == lookup(lines@, path@),
        reply is Text || reply is NotFound,
{
    let mut n: usize = lines.len();
    assert(lines@.take(n as int) =~= lines@);
    while n > 0
        invariant
            n <= lines.len(),
            lookup(lines@.take(n as int), path@) == lookup(lines@, path@),
        decreases n,
    {
        assert(lines@.take(n as int).drop_last() =~= lines@.take(n - 1));
        if lines[n - 1].path == *path {
            return Reply::Text(lines[n - 1].value.clone());
        }
        n -= 1;
    }
    Reply::NotFound
}

/// A table of filesystem answers.
pub struct Snapshot {
    links: Vec<Entry>,
    existing: Vec<Entry>,
}

impl View for Snapshot {
    type V = Oracle;

    closed spec fn view(&self) -> Oracle {
        Oracle { links: table(self.links@), existing: table(self.existing@) }
    }
}

impl Snapshot {
    /// The table of a filesystem in which nothing exists.
    pub fn new() -> (fs: Snapshot)
        ensures
            fs@ == Oracle::empty(),
    {
        proof {
            lemma_table_empty();
        }
        Snapshot { links: Vec::new(), existing: Vec::new() }
    }

    /// Records a symbolic link at `path` that points to `target`. An
    /// earlier record for the same path is overruled.
    pub fn add_link(&mut self, path: &str, target: &str)
        ensures
            final(self)@ == old(self)@.with_link(path@, target@),
    {
        let line = Entry { path: path.to_owned(), value: target.to_owned() };
        proof {
            lemma_table_push(self.links@, line);
        }
        self.links.push(line);
    }

    /// Records that `path` exists and has the canonical form `canonical`.
    /// An earlier record for the same path is overruled.
    pub fn add_existing(&mut self, path: &str, canonical: &str)
        ensures
            final(self)@ == old(self)@.with_existing(path@, canonical@),
    {
        let line = Entry { path: path.to_owned(), value: canonical.to_owned() };
        proof {
            lemma_table_push(self.existing@, line);
        }
        self.existing.push(line);
    }

    /// The answer that the table holds to `query`: the text recorded for
    /// the path, or `NotFound`.
    pub fn answer(&self, query: &Query) -> (reply: Reply)
        ensures
            reply@ == self@.answer(query@),
            reply is Text || reply is NotFound,
    {
        match query {
            Query::ReadLink(path) => find(&self.links, path),
            Query::Canonicalize(path) => find(&self.existing, path),
        }
    }
}

} // verus!
