//! How a drawn history reads: titles, labels, coordinates and notes.

use vstd::prelude::*;

use crate::dag::{coordinate, DagModel, DagNodeInput, DagNodeVis};
use crate::decode::OpBadge;
use crate::ids::{base64, clock_short};
use crate::text::{decimal, decimal_text, join, joined, texts};

verus! {

/// What one backend did, as a node's title has it.
pub open spec fn title_badge(badge: OpBadge) -> Seq<char> {
    badge.backend@ + " "@ + badge.summary@ + " ("@ + decimal(badge.bytes as nat) + " B)"@
}

/// An event's title: its id, what it builds on, and what it did, one line each.
pub open spec fn title_of(input: DagNodeInput) -> Seq<char> {
    base64(input.id@) + "\nparents: "@ + (if input.parent@.len() == 0 {
        "(none — creation event)"@
    } else {
        clock_short(input.parent@)
    }) + "\n"@ + joined(
        Seq::new(input.badges@.len(), |i: int| title_badge(input.badges@[i])),
        " · "@,
    )
}

/// The title of a drawn event.
pub fn node_title(input: &DagNodeInput) -> (text: String)
    ensures
        text@ == title_of(*input),
{
    let mut lines: Vec<String> = Vec::new();
    let mut i: usize = 0;
    while i < input.badges.len()
        invariant
            i <= input.badges.len(),
            lines.len() == i,
            forall|j: int| 0 <= j < i ==> (#[trigger] lines@[j])@ == title_badge(input.badges@[j]),
        decreases input.badges.len() - i,
    {
        let badge = &input.badges[i];
        let mut line = badge.backend.clone();
        line.append(" ");
        line.append(badge.summary.as_str());
        line.append(" (");
        line.append(decimal_text(badge.bytes as u128).as_str());
        line.append(" B)");
        lines.push(line);
        i += 1;
    }
    assert(texts(lines@) =~= Seq::new(
        input.badges@.len(),
        |i: int| title_badge(input.badges@[i]),
    ));
    let mut text = input.id.to_base64();
    text.append("\nparents: ");
    if input.parent.is_empty() {
        text.append("(none — creation event)");
    } else {
        text.append(input.parent.to_base64_short().as_str());
    }
    text.append("\n");
    text.append(join(&lines, " · ").as_str());
    text
}

/// What an event did, in one short line.
pub fn summary_line(input: &DagNodeInput) -> (text: String)
    ensures
        text@ == joined(
            Seq::new(input.badges@.len(), |i: int| input.badges@[i].summary@),
            " "@,
        ),
{
    let mut lines: Vec<String> = Vec::new();
    let mut i: usize = 0;
    while i < input.badges.len()
        invariant
            i <= input.badges.len(),
            lines.len() == i,
            forall|j: int| 0 <= j < i ==> (#[trigger] lines@[j])@ == input.badges@[j].summary@,
        decreases input.badges.len() - i,
    {
        lines.push(input.badges[i].summary.clone());
        i += 1;
    }
    assert(texts(lines@) =~= Seq::new(
        input.badges@.len(),
        |i: int| input.badges@[i].summary@,
    ));
    join(&lines, " ")
}

/// Where a drawn event goes.
pub fn transform_text(node: &DagNodeVis) -> (text: String)
    ensures
        text@ == "translate("@ + coordinate(node.x as int) + ","@ + coordinate(node.y as int)
            + ")"@,
{
    let mut x = decimal_text(node.x);
    x.append(".0");
    let mut y = decimal_text(node.y);
    y.append(".0");
    let mut text = "translate(".to_owned();
    text.append(x.as_str());
    text.append(",");
    text.append(y.as_str());
    text.append(")");
    text
}

/// The part of the plane that the picture takes up.
pub fn view_box(model: &DagModel) -> (text: String)
    ensures
        text@ == "0 0 "@ + decimal(model.width as nat) + " "@ + decimal(model.height as nat),
{
    let mut text = "0 0 ".to_owned();
    text.append(decimal_text(model.width).as_str());
    text.append(" ");
    text.append(decimal_text(model.height).as_str());
    text
}

/// What is said of the events that are not drawn.
pub open spec fn omitted_note(omitted: nat) -> Seq<char> {
    if omitted > 0 {
        decimal(omitted) + " older events not rendered. "@
    } else {
        Seq::empty()
    }
}

/// What is said of the parents that are not there.
pub open spec fn dangling_note(dangling: nat) -> Seq<char> {
    if dangling > 0 {
        decimal(dangling) + " parent reference(s) not fetched (older history)."@
    } else {
        Seq::empty()
    }
}

/// Say what the picture leaves out, if it leaves anything out.
pub fn note_text(model: &DagModel) -> (text: Option<String>)
    ensures
        match text {
            Some(text) => (model.omitted > 0 || model.dangling > 0) && text@ == omitted_note(
                model.omitted as nat,
            ) + dangling_note(model.dangling as nat),
            None => model.omitted == 0 && model.dangling == 0,
        },
{
    if model.omitted == 0 && model.dangling == 0 {
        return None;
    }
    let mut text = String::new();
    if model.omitted > 0 {
        text = decimal_text(model.omitted as u128);
        text.append(" older events not rendered. ");
    }
    assert(text@ =~= omitted_note(model.omitted as nat));
    let mut more = String::new();
    if model.dangling > 0 {
        more = decimal_text(model.dangling as u128);
        more.append(" parent reference(s) not fetched (older history).");
    }
    assert(more@ =~= dangling_note(model.dangling as nat));
    text.append(more.as_str());
    Some(text)
}

} // verus!
