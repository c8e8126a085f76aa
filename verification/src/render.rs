//! Vector markup for a frame, composed by the `svg` crate.
//!
//! What the `svg` crate does is not verified here. The functions marked
//! `external_body` state what its source shows; everything else in this
//! file is proved.

use vstd::prelude::*;

verus! {

/// A filled rectangle as it is handed to the composer: x, y, width, height
/// and the text of the `fill` attribute.
pub type Shape = (int, int, int, int, Seq<char>);

/// `svg::node::element::Group`, a `<g>` element that collects child nodes.
#[verifier::external_type_specification]
#[verifier::external_body]
pub struct ExGroup(svg::node::element::Group);

/// The rectangles that a group made by `empty_group` and `group_with_rect`
/// holds as children, in the order in which they were added: for each its
/// `x`, `y`, `width` and `height` and the text of its `fill`.
pub uninterp spec fn group_shapes(group: svg::node::element::Group) -> Seq<
    (int, int, int, int, Seq<char>),
>;

/// What `to_string` returns for the `<svg>` document of the given width
/// and height whose children are groups with the given rectangles.
pub uninterp spec fn document_markup(
    width: int,
    height: int,
    groups: Seq<Seq<(int, int, int, int, Seq<char>)>>,
) -> Seq<char>;

/// `Group::new` and `Group::set`: a `<g>` element with crisp edges and no
/// child yet.
#[verifier::external_body]
pub(crate) fn empty_group() -> (group: svg::node::element::Group)
    ensures
        group_shapes(group) == Seq::<Shape>::empty(),
{
    svg::node::element::Group::new().set("shape-rendering", "crispEdges")
}

/// `Rectangle::new`, `Rectangle::set` and `Group::add`: the group with one
/// more `<rect>` as its last child. `add` appends to the list of children
/// and leaves the earlier ones as they were.
#[verifier::external_body]
pub(crate) fn group_with_rect(
    group: svg::node::element::Group,
    x: i32,
    y: i32,
    width: i32,
    height: i32,
    fill: &str,
) -> (grown: svg::node::element::Group)
    ensures
        group_shapes(grown) == group_shapes(group).push(
            (x as int, y as int, width as int, height as int, fill@),
        ),
{
    group.add(
        svg::node::element::Rectangle::new().set("x", x).set("y", y).set("width", width).set(
            "height",
            height,
        ).set("fill", fill),
    )
}

/// `Document::new`, `Document::set` and `to_string`: the text of a document
/// without children. The composer writes the attributes of an element
/// sorted by name, so the text depends on width and height alone.
#[verifier::external_body]
pub(crate) fn blank_document(width: usize, height: usize) -> (markup: String)
    ensures
        markup@ == document_markup(width as int, height as int, Seq::<Seq<Shape>>::empty()),
{
    svg::Document::new().set("xmlns", "http://www.w3.org/2000/svg").set(
        "viewBox",
        (0, 0, width, height),
    ).set("width", width).set("height", height).to_string()
}

/// `Document::new`, `Document::set`, `Document::add` and `to_string`: the
/// text of a document whose one child is the group. The composer writes
/// attributes sorted by name and children in the order in which they were
/// added, so the text depends on width, height and the rectangles of the
/// group alone.
#[verifier::external_body]
pub(crate) fn framed_document(width: usize, height: usize, group: svg::node::element::Group) -> (markup:
    String)
    ensures
        markup@ == document_markup(width as int, height as int, seq![group_shapes(group)]),
{
    svg::Document::new().set("xmlns", "http://www.w3.org/2000/svg").set(
        "viewBox",
        (0, 0, width, height),
    ).set("width", width).set("height", height).add(group).to_string()
}

/// The sixteen hexadecimal digits, capitals for ten to fifteen.
pub open spec fn hex_digits() -> Seq<char> {
    "0123456789ABCDEF"@
}

/// Hexadecimal digit number `k` of a colour, counted from the lowest.
pub open spec fn nibble(color: u32, k: u32) -> int {
    ((color >> (4 * k) as u32) & 0xF) as int
}

/// The digit at place `k` of a colour as a text of one character.
pub open spec fn digit_text(color: u32, k: u32) -> Seq<char> {
    hex_digits().subrange(nibble(color, k), nibble(color, k) + 1)
}

/// The `fill` attribute for a colour: `#` and the six hexadecimal digits of
/// its lower 24 bits, highest first.
pub open spec fn fill_text(color: u32) -> Seq<char> {
    "#"@ + digit_text(color, 5) + digit_text(color, 4) + digit_text(color, 3) + digit_text(
        color,
        2,
    ) + digit_text(color, 1) + digit_text(color, 0)
}

/// Appends hexadecimal digit `k` of `color` to `text`.
fn push_digit(text: &mut String, color: u32, k: u32)
    requires
        k < 6,
    ensures
        final(text)@ == old(text)@ + digit_text(color, k),
{
    let digits = "0123456789ABCDEF";
    proof {
        reveal_strlit("0123456789ABCDEF");
    }
    let shift: u32 = 4 * k;
    let n: u32 = (color >> shift) & 0xF;
    assert(n <= 15) by (bit_vector)
        requires
            n == (color >> shift) & 0xF,
    ;
    let at: usize = n as usize;
    let digit: &str = digits.substring_ascii(at, at + 1);
    text.append(digit);
}

/// The text of the `fill` attribute for a colour.
pub fn fill(color: u32) -> (text: String)
    ensures
        text@ == fill_text(color),
{
    let mut text: String = String::from_str("#");
    push_digit(&mut text, color, 5);
    push_digit(&mut text, color, 4);
    push_digit(&mut text, color, 3);
    push_digit(&mut text, color, 2);
    push_digit(&mut text, color, 1);
    push_digit(&mut text, color, 0);
    text
}

} // verus!
