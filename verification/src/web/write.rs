//! What the forms ask the daemon to write, and where a write leaves the
//! browser.

use vstd::prelude::*;

use crate::digest::EnvelopeDigest;
use crate::msg::NamespaceKey;
use crate::subkey::{Step, Subkey};
use crate::text::{
    append, append_signed, read_signed, signed_decimal, signed_value, text_of, trim, trimmed,
};
use crate::value::{Tree, Value};
use crate::web::error::Error;
use crate::web::frame::Frame;
use crate::web::json::{parse, read_value};
use crate::web::location::{Location, Place};
use crate::web::view::{short, short_text, HOME_URL};

verus! {

/// One write, as the daemon is asked for it.
#[derive(Debug, PartialEq, Eq)]
pub enum Ask {
    /// Put a value in a place.
    Put(Location, Value),
    /// Append a value to the array in a place.
    Push(Location, Value),
    /// Add to the integer in a place.
    Increment(Location, i64),
    /// Remove what is in a place.
    Delete(Location),
}

/// What a write does.
pub enum Asked {
    Put(Place, Tree),
    Push(Place, Tree),
    Increment(Place, i64),
    Delete(Place),
}

impl View for Ask {
    type V = Asked;

    open spec fn view(&self) -> Asked {
        match self {
            Ask::Put(at, value) => Asked::Put(at@, value.tree()),
            Ask::Push(at, value) => Asked::Push(at@, value.tree()),
            Ask::Increment(at, delta) => Asked::Increment(at@, *delta),
            Ask::Delete(at) => Asked::Delete(at@),
        }
    }
}

impl Ask {
    /// Whether the place and the value are well formed.
    pub open spec fn wf(&self) -> bool {
        match self {
            Ask::Put(at, value) => at.wf() && value.wf(),
            Ask::Push(at, value) => at.wf() && value.wf(),
            Ask::Increment(at, _) => at.wf(),
            Ask::Delete(at) => at.wf(),
        }
    }
}

/// Whether a form asked for what `meant` says, or was refused in its words.
pub open spec fn asks(ask: Result<Ask, Error>, meant: Result<Asked, Seq<char>>) -> bool {
    match (ask, meant) {
        (Ok(ask), Ok(asked)) => ask.wf() && ask@ == asked,
        (Err(Error::Invalid(said)), Err(why)) => said@ == why,
        _ => false,
    }
}

/// The value form text spells, a failure being the request's.
pub open spec fn form_value(text: Seq<char>) -> Result<Tree, Seq<char>> {
    match read_value(text) {
        Ok(tree) => Ok(tree),
        Err(why) => Err(why.text()),
    }
}

fn value(text: &str) -> (value: Result<Value, Error>)
    ensures
        match (value, form_value(text@)) {
            (Ok(value), Ok(tree)) => value.wf() && value.tree() == tree,
            (Err(Error::Invalid(said)), Err(why)) => said@ == why,
            _ => false,
        },
{
    match parse(text) {
        Ok(value) => Ok(value),
        Err(e) => Err(Error::Invalid(e.text())),
    }
}

/// What replacing the value in a place asks for.
pub open spec fn replaces(place: Place, text: Seq<char>) -> Result<Asked, Seq<char>> {
    match form_value(text) {
        Ok(tree) => Ok(Asked::Put(place, tree)),
        Err(why) => Err(why),
    }
}

/// What the editor's form asks for: the value it holds, in `location`.
pub fn replace(location: Location, text: &str) -> (ask: Result<Ask, Error>)
    requires
        location.wf(),
    ensures
        asks(ask, replaces(location@, text@)),
{
    match value(text) {
        Ok(value) => Ok(Ask::Put(location, value)),
        Err(e) => Err(e),
    }
}

/// What adding an entry asks for: a value under a key, where there is a
/// key; else one more at the end.
pub open spec fn inserts(place: Place, key: Option<Seq<char>>, text: Seq<char>) -> Result<
    Asked,
    Seq<char>,
> {
    match form_value(text) {
        Ok(tree) => Ok(
            match key {
                Some(key) => Asked::Put(place.child(Step::Key(key)), tree),
                None => Asked::Push(place, tree),
            },
        ),
        Err(why) => Err(why),
    }
}

/// A key, where there is one.
pub open spec fn key_view(key: Option<String>) -> Option<Seq<char>> {
    match key {
        Some(key) => Some(key@),
        None => None,
    }
}

/// What the add-entry form asks for: a key for a table, none for an array.
pub fn insert(location: Location, key: Option<String>, text: &str) -> (ask: Result<Ask, Error>)
    requires
        location.wf(),
    ensures
        asks(ask, inserts(location@, key_view(key), text@)),
{
    match value(text) {
        Ok(value) => match key {
            Some(key) => Ok(Ask::Put(location.child(Subkey::Key(key)), value)),
            None => Ok(Ask::Push(location, value)),
        },
        Err(e) => Err(e),
    }
}

/// What adding to an integer asks for.
pub open spec fn increments(place: Place, delta: Seq<char>) -> Result<Asked, Seq<char>> {
    match signed_value(trimmed(delta)) {
        Some(n) => Ok(Asked::Increment(place, n as i64)),
        None => Err("`"@ + delta + "` is not a whole number to add"@),
    }
}

/// What the increment form asks for: how much to add, negative to take.
pub fn increment(location: Location, delta: &str) -> (ask: Result<Ask, Error>)
    requires
        location.wf(),
    ensures
        asks(ask, increments(location@, delta@)),
{
    let chars = trim(delta);
    match read_signed(&chars) {
        Some(n) => Ok(Ask::Increment(location, n)),
        None => {
            let mut line: Vec<char> = Vec::new();
            append(&mut line, "`");
            append(&mut line, delta);
            append(&mut line, "` is not a whole number to add");
            assert(line@ =~= "`"@ + delta@ + "` is not a whole number to add"@);
            Err(Error::Invalid(text_of(&line)))
        },
    }
}

/// What creating a namespace asks for.
pub open spec fn creates(key: Seq<char>, text: Seq<char>) -> Result<Asked, Seq<char>> {
    if trimmed(key).len() == 0 {
        Err("not a namespace name: "@ + "a namespace key cannot be empty"@)
    } else {
        replaces(Place { key: trimmed(key), path: Seq::empty() }, text)
    }
}

/// What the create-namespace form asks for.
pub fn create(key: &str, text: &str) -> (ask: Result<Ask, Error>)
    ensures
        asks(ask, creates(key@, text@)),
{
    let chars = trim(key);
    let name = text_of(&chars);
    match NamespaceKey::try_new(name.as_str()) {
        Ok(key) => replace(Location::namespace(key), text),
        Err(e) => {
            let mut line: Vec<char> = Vec::new();
            append(&mut line, "not a namespace name: ");
            append(&mut line, e.describe());
            assert(line@ =~= "not a namespace name: "@ + "a namespace key cannot be empty"@);
            Err(Error::Invalid(text_of(&line)))
        },
    }
}

/// What the delete buttons ask for.
pub fn remove(location: Location) -> (ask: Ask)
    requires
        location.wf(),
    ensures
        ask.wf(),
        ask@ == Asked::Delete(location@),
{
    Ask::Delete(location)
}

/// What a write did to the chain.
pub open spec fn moved_text(outcome: Seq<char>, head: EnvelopeDigest) -> Seq<char> {
    "; head "@ + outcome + " at "@ + short_text(head)
}

/// What to say once a write is done.
pub open spec fn notice_text(asked: Asked, outcome: Seq<char>, head: EnvelopeDigest) -> Seq<char> {
    (match asked {
        Asked::Put(place, _) => "Wrote "@ + place.text(),
        Asked::Push(place, _) => "Appended to "@ + place.text(),
        Asked::Increment(place, delta) => "Added "@ + signed_decimal(delta as int) + " to "@
            + place.text(),
        Asked::Delete(place) => "Deleted "@ + place.text(),
    }) + moved_text(outcome, head)
}

/// What to say once the daemon has done what was asked, the chain's head
/// `outcome` at `head`.
pub fn notice(ask: &Ask, outcome: &str, head: &EnvelopeDigest) -> (notice: String)
    requires
        ask.wf(),
    ensures
        notice@ == notice_text(ask@, outcome@, *head),
{
    let mut line: Vec<char> = Vec::new();
    match ask {
        Ask::Put(at, _) => {
            append(&mut line, "Wrote ");
            let here = at.text();
            append(&mut line, here.as_str());
        },
        Ask::Push(at, _) => {
            append(&mut line, "Appended to ");
            let here = at.text();
            append(&mut line, here.as_str());
        },
        Ask::Increment(at, delta) => {
            append(&mut line, "Added ");
            append_signed(&mut line, *delta);
            append(&mut line, " to ");
            let here = at.text();
            append(&mut line, here.as_str());
        },
        Ask::Delete(at) => {
            append(&mut line, "Deleted ");
            let here = at.text();
            append(&mut line, here.as_str());
        },
    }
    append(&mut line, "; head ");
    append(&mut line, outcome);
    append(&mut line, " at ");
    let at = short(head);
    append(&mut line, at.as_str());
    assert(line@ =~= notice_text(ask@, outcome@, *head));
    text_of(&line)
}

/// Where a write leaves the browser.
#[derive(Debug, PartialEq, Eq)]
pub struct Landing {
    /// The URL of what is shown next.
    pub url: String,
    /// Whether the browser is sent there, so a reload never repeats the
    /// write.
    pub redirect: bool,
    /// Whether the browser's URL moves there.
    pub push: bool,
}

/// A place, where there is one.
pub open spec fn place_view(location: Option<&Location>) -> Option<Place> {
    match location {
        Some(location) => Some(location@),
        None => None,
    }
}

/// The URL of a place, or of the whole ledger.
pub open spec fn url_of(place: Option<Place>) -> Seq<char> {
    match place {
        Some(place) => place.url(),
        None => "/"@,
    }
}

/// Whether the browser's URL moves: never for a plain form, which is
/// redirected, and else where it does not show the place already, by what it
/// says itself or by where the write came from.
pub open spec fn pushes(frame: Frame, from: Option<Place>, to: Option<Place>) -> bool {
    match frame {
        Frame::Document => false,
        Frame::Pane { current } => {
            &&& !(current matches Some(current) && current@ == url_of(to))
            &&& !(from is Some && from == to)
        },
    }
}

/// A browser that shows the place a write lands on is not moved there again,
/// and one that shows another is; a plain form is redirected in any case.
pub proof fn a_url_moves_once(
    current: Option<String>,
    from: Option<Place>,
    to: Option<Place>,
)
    ensures
        !pushes(Frame::Document, from, to),
        current matches Some(current) ==> current@ == url_of(to) ==> !pushes(
            Frame::Pane { current: Some(current) },
            from,
            to,
        ),
        from is Some ==> !pushes(Frame::Pane { current }, from, from),
        current matches Some(current) ==> current@ != url_of(to) ==> (pushes(
            Frame::Pane { current: Some(current) },
            from,
            to,
        ) <==> from is None || from != to),
        pushes(Frame::Pane { current: None }, None, to),
{
}

/// Where a write on `from` leaves the browser: at `destination`, or home
/// for `None`. A plain form submission is redirected there. Pushing the URL
/// the browser already shows would leave a duplicate history entry: a row
/// deleted from the table it is listed in lands on the page it was deleted
/// from.
pub fn landed(frame: &Frame, from: Option<&Location>, destination: Option<&Location>) -> (landing:
    Landing)
    requires
        from matches Some(from) ==> from.wf(),
        destination matches Some(to) ==> to.wf(),
    ensures
        landing.url@ == url_of(place_view(destination)),
        landing.redirect == (frame is Document),
        landing.push == pushes(*frame, place_view(from), place_view(destination)),
{
    let url = match destination {
        Some(to) => to.url(),
        None => HOME_URL.to_owned(),
    };
    let redirect: bool = match frame {
        Frame::Document => true,
        Frame::Pane { .. } => false,
    };
    let stays: bool = match (from, destination) {
        (Some(from), Some(to)) => from.same(to),
        _ => false,
    };
    let push: bool = !redirect && !frame.shows(url.as_str()) && !stays;
    Landing { url, redirect, push }
}

/// A delete lands one level up: on what the thing deleted was listed in,
/// and at home from a namespace.
pub proof fn deleting_lands_above(place: Place, step: Step)
    ensures
        url_of(place.child(step).parent()) == place.url(),
        url_of(Place { key: place.key, path: Seq::empty() }.parent()) == "/"@,
{
    crate::web::location::up_undoes_down(place, step);
}

} // verus!
