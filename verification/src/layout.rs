//! The box tree and the block layout pass.
//!
//! Lengths are whole pixels held in `i64`. Geometry is stated over
//! mathematical integers; a layout whose results do not fit the machine
//! type is refused with [`LayoutError::LengthOverflow`].

use vstd::prelude::*;
use crate::css::{Unit, Value};
use crate::style::{display_of, looked_up, Display, StyledNode};

verus! {

/// Why a box tree could not be built or laid out.
#[derive(Clone, Copy, Debug, PartialEq, Eq)]
pub enum LayoutError {
    /// The root of the styled tree is not displayed.
    RootDisplayNone,
    /// An anonymous block was asked for its styled node.
    AnonymousBoxStyleAccess,
    /// A computed length does not fit in `i64`.
    LengthOverflow,
}

#[derive(Clone, Copy, Debug, PartialEq, Eq)]
pub struct Rect {
    pub x: i64,
    pub y: i64,
    pub width: i64,
    pub height: i64,
}

#[derive(Clone, Copy, Debug, PartialEq, Eq)]
pub struct EdgeSizes {
    pub left: i64,
    pub right: i64,
    pub top: i64,
    pub bottom: i64,
}

/// The content rectangle of a box and the edges around it.
#[derive(Clone, Copy, Debug, PartialEq, Eq)]
pub struct Dimensions {
    pub content: Rect,
    pub padding: EdgeSizes,
    pub border: EdgeSizes,
    pub margin: EdgeSizes,
}

/// A rectangle over the integers.
pub ghost struct Area {
    pub x: int,
    pub y: int,
    pub width: int,
    pub height: int,
}

/// Four edge sizes over the integers.
pub ghost struct Sides {
    pub left: int,
    pub right: int,
    pub top: int,
    pub bottom: int,
}

/// The geometry of a box over the integers.
pub ghost struct Geometry {
    pub content: Area,
    pub padding: Sides,
    pub border: Sides,
    pub margin: Sides,
}

/// Whether a length can be held in `i64`.
pub open spec fn fits(v: int) -> bool {
    i64::MIN <= v <= i64::MAX
}

impl Area {
    /// The rectangle grown outwards by the given edges.
    pub open spec fn expanded_by(self, edge: Sides) -> Area {
        Area {
            x: self.x - edge.left,
            y: self.y - edge.top,
            width: self.width + edge.left + edge.right,
            height: self.height + edge.top + edge.bottom,
        }
    }

    pub open spec fn fits(self) -> bool {
        fits(self.x) && fits(self.y) && fits(self.width) && fits(self.height)
    }
}

impl Sides {
    pub open spec fn fits(self) -> bool {
        fits(self.left) && fits(self.right) && fits(self.top) && fits(self.bottom)
    }
}

impl Geometry {
    /// The content area with its padding.
    pub open spec fn padding_box(self) -> Area {
        self.content.expanded_by(self.padding)
    }

    /// The content area with its padding and borders.
    pub open spec fn border_box(self) -> Area {
        self.padding_box().expanded_by(self.border)
    }

    /// The content area with its padding, borders and margins.
    pub open spec fn margin_box(self) -> Area {
        self.border_box().expanded_by(self.margin)
    }

    pub open spec fn fits(self) -> bool {
        self.content.fits() && self.padding.fits() && self.border.fits() && self.margin.fits()
    }

    /// The same geometry with another content height.
    pub open spec fn taller(self, height: int) -> Geometry {
        Geometry {
            content: Area {
                x: self.content.x,
                y: self.content.y,
                width: self.content.width,
                height: height,
            },
            padding: self.padding,
            border: self.border,
            margin: self.margin,
        }
    }
}

impl View for Rect {
    type V = Area;

    open spec fn view(&self) -> Area {
        Area { x: self.x as int, y: self.y as int, width: self.width as int, height: self.height as int }
    }
}

impl View for EdgeSizes {
    type V = Sides;

    open spec fn view(&self) -> Sides {
        Sides {
            left: self.left as int,
            right: self.right as int,
            top: self.top as int,
            bottom: self.bottom as int,
        }
    }
}

impl View for Dimensions {
    type V = Geometry;

    open spec fn view(&self) -> Geometry {
        Geometry {
            content: self.content@,
            padding: self.padding@,
            border: self.border@,
            margin: self.margin@,
        }
    }
}

impl Default for Rect {
    fn default() -> (r: Self)
        ensures
            r == (Rect { x: 0, y: 0, width: 0, height: 0 }),
    {
        Rect { x: 0, y: 0, width: 0, height: 0 }
    }
}

impl Default for EdgeSizes {
    fn default() -> (r: Self)
        ensures
            r == (EdgeSizes { left: 0, right: 0, top: 0, bottom: 0 }),
    {
        EdgeSizes { left: 0, right: 0, top: 0, bottom: 0 }
    }
}

/// The dimensions of a box before layout: zero everywhere.
pub open spec fn zero_dimensions() -> Dimensions {
    Dimensions {
        content: Rect { x: 0, y: 0, width: 0, height: 0 },
        padding: EdgeSizes { left: 0, right: 0, top: 0, bottom: 0 },
        border: EdgeSizes { left: 0, right: 0, top: 0, bottom: 0 },
        margin: EdgeSizes { left: 0, right: 0, top: 0, bottom: 0 },
    }
}

impl Default for Dimensions {
    fn default() -> (r: Self)
        ensures
            r == zero_dimensions(),
    {
        Dimensions {
            content: Rect::default(),
            padding: EdgeSizes::default(),
            border: EdgeSizes::default(),
            margin: EdgeSizes::default(),
        }
    }
}

/// The length as an `i64`, where it fits.
fn narrowed(v: i128) -> (r: Result<i64, LayoutError>)
    ensures
        match r {
            Ok(n) => n == v,
            Err(e) => e == LayoutError::LengthOverflow && !fits(v as int),
        },
{
    if v < -9223372036854775808i128 || v > 9223372036854775807i128 {
        Err(LayoutError::LengthOverflow)
    } else {
        Ok(v as i64)
    }
}

/// The rectangle grown outwards by the given amounts, where it fits.
fn grown(rect: Rect, left: i128, right: i128, top: i128, bottom: i128) -> (r: Result<
    Rect,
    LayoutError,
>)
    requires
        -0x4_0000_0000_0000_0000 <= left <= 0x4_0000_0000_0000_0000,
        -0x4_0000_0000_0000_0000 <= right <= 0x4_0000_0000_0000_0000,
        -0x4_0000_0000_0000_0000 <= top <= 0x4_0000_0000_0000_0000,
        -0x4_0000_0000_0000_0000 <= bottom <= 0x4_0000_0000_0000_0000,
    ensures
        match r {
            Ok(b) => b@ == rect@.expanded_by(
                Sides { left: left as int, right: right as int, top: top as int, bottom: bottom as int },
            ),
            Err(e) => e == LayoutError::LengthOverflow && !rect@.expanded_by(
                Sides { left: left as int, right: right as int, top: top as int, bottom: bottom as int },
            ).fits(),
        },
{
    let x: i64 = narrowed(rect.x as i128 - left)?;
    let y: i64 = narrowed(rect.y as i128 - top)?;
    let width: i64 = narrowed(rect.width as i128 + left + right)?;
    let height: i64 = narrowed(rect.height as i128 + top + bottom)?;
    Ok(Rect { x, y, width, height })
}

impl Rect {
    /// The rectangle grown outwards by the given edges, or
    /// `LengthOverflow` where the result does not fit.
    pub fn expanded_by(self, edge: EdgeSizes) -> (r: Result<Rect, LayoutError>)
        ensures
            match r {
                Ok(b) => b@ == self@.expanded_by(edge@),
                Err(e) => e == LayoutError::LengthOverflow && !self@.expanded_by(edge@).fits(),
            },
    {
        grown(self, edge.left as i128, edge.right as i128, edge.top as i128, edge.bottom as i128)
    }
}

impl Dimensions {
    /// The area covered by the content area plus its padding.
    pub fn padding_box(self) -> (r: Result<Rect, LayoutError>)
        ensures
            match r {
                Ok(b) => b@ == self@.padding_box(),
                Err(e) => e == LayoutError::LengthOverflow && !self@.padding_box().fits(),
            },
    {
        self.content.expanded_by(self.padding)
    }

    /// The area covered by the content area plus padding and borders.
    pub fn border_box(self) -> (r: Result<Rect, LayoutError>)
        ensures
            match r {
                Ok(b) => b@ == self@.border_box(),
                Err(e) => e == LayoutError::LengthOverflow && !self@.border_box().fits(),
            },
    {
        grown(
            self.content,
            self.padding.left as i128 + self.border.left as i128,
            self.padding.right as i128 + self.border.right as i128,
            self.padding.top as i128 + self.border.top as i128,
            self.padding.bottom as i128 + self.border.bottom as i128,
        )
    }

    /// The area covered by the content area plus padding, borders and
    /// margin.
    pub fn margin_box(self) -> (r: Result<Rect, LayoutError>)
        ensures
            match r {
                Ok(b) => b@ == self@.margin_box(),
                Err(e) => e == LayoutError::LengthOverflow && !self@.margin_box().fits(),
            },
    {
        grown(
            self.content,
            self.padding.left as i128 + self.border.left as i128 + self.margin.left as i128,
            self.padding.right as i128 + self.border.right as i128 + self.margin.right as i128,
            self.padding.top as i128 + self.border.top as i128 + self.margin.top as i128,
            self.padding.bottom as i128 + self.border.bottom as i128 + self.margin.bottom as i128,
        )
    }

    /// The height of the margin box.
    fn margin_box_height(self) -> (h: i128)
        ensures
            h == self@.margin_box().height,
    {
        self.content.height as i128 + self.padding.top as i128 + self.padding.bottom as i128
            + self.border.top as i128 + self.border.bottom as i128 + self.margin.top as i128
            + self.margin.bottom as i128
    }
}

/// What a box stands for: a block-level or inline-level styled node, or an
/// anonymous block that holds inline-level boxes.
#[derive(Clone, Copy, Debug)]
pub enum BoxType<'a> {
    BlockNode(&'a StyledNode<'a>),
    InlineNode(&'a StyledNode<'a>),
    AnonymousBlock,
}

/// A node of the box tree.
#[derive(Debug)]
pub struct LayoutBox<'a> {
    pub dimensions: Dimensions,
    pub box_type: BoxType<'a>,
    pub children: Vec<LayoutBox<'a>>,
}

/// The pixels of an edge property: the value under `name`, else under the
/// shorthand `fallback`, else zero. A keyword counts as zero.
pub open spec fn edge(values: Map<Seq<char>, Value>, name: Seq<char>, fallback: Seq<char>) -> int {
    looked_up(values, name, fallback, Value::Length(0, Unit::Px)).px()
}

/// Whether an edge property is the keyword `auto`.
pub open spec fn edge_is_auto(
    values: Map<Seq<char>, Value>,
    name: Seq<char>,
    fallback: Seq<char>,
) -> bool {
    looked_up(values, name, fallback, Value::Length(0, Unit::Px)).is_keyword("auto"@)
}

/// Whether the width is left to the layout: `width` is not set, or is the
/// keyword `auto`.
pub open spec fn width_is_auto(values: Map<Seq<char>, Value>) -> bool {
    !values.contains_key("width"@) || values["width"@].is_keyword("auto"@)
}

/// The pixels of the `width` property, zero where it is not a length.
pub open spec fn width_px(values: Map<Seq<char>, Value>) -> int {
    if values.contains_key("width"@) {
        values["width"@].px()
    } else {
        0
    }
}

/// The horizontal space of the containing block that the specified width,
/// margins, borders and paddings leave over. Negative where they ask for
/// more than there is.
pub open spec fn remaining_width(values: Map<Seq<char>, Value>, available: int) -> int {
    available - (width_px(values) + edge(values, "margin-left"@, "margin"@) + edge(
        values,
        "margin-right"@,
        "margin"@,
    ) + edge(values, "border-left-width"@, "border-width"@) + edge(
        values,
        "border-right-width"@,
        "border-width"@,
    ) + edge(values, "padding-left"@, "padding"@) + edge(values, "padding-right"@, "padding"@))
}

/// The used content width of a block in a containing block that is
/// `available` wide.
///
/// Where more is specified than fits, the (negative) rest goes to the right
/// margin if that is `auto`, else to the width. Otherwise an `auto` width
/// takes all the rest; with a given width two `auto` margins share the rest,
/// and a single `auto` margin takes it.
pub open spec fn used_width(values: Map<Seq<char>, Value>, available: int) -> int {
    let rest = remaining_width(values, available);
    if rest < 0 {
        if edge_is_auto(values, "margin-right"@, "margin"@) {
            width_px(values)
        } else {
            width_px(values) + rest
        }
    } else if width_is_auto(values) {
        rest
    } else {
        width_px(values)
    }
}

/// The used left margin of a block; see [`used_width`].
pub open spec fn used_margin_left(values: Map<Seq<char>, Value>, available: int) -> int {
    let rest = remaining_width(values, available);
    if rest < 0 || width_is_auto(values) || !edge_is_auto(values, "margin-left"@, "margin"@) {
        edge(values, "margin-left"@, "margin"@)
    } else if edge_is_auto(values, "margin-right"@, "margin"@) {
        rest / 2
    } else {
        rest
    }
}

/// The used right margin of a block; see [`used_width`]. Of two `auto`
/// margins the right one takes the odd pixel.
pub open spec fn used_margin_right(values: Map<Seq<char>, Value>, available: int) -> int {
    let rest = remaining_width(values, available);
    if rest < 0 {
        if edge_is_auto(values, "margin-right"@, "margin"@) {
            rest
        } else {
            edge(values, "margin-right"@, "margin"@)
        }
    } else if width_is_auto(values) || !edge_is_auto(values, "margin-right"@, "margin"@) {
        edge(values, "margin-right"@, "margin"@)
    } else if edge_is_auto(values, "margin-left"@, "margin"@) {
        rest - rest / 2
    } else {
        rest
    }
}

/// Where the width or a side margin is `auto`, or more is specified than
/// fits, the used width, margins, borders and paddings add up to the width
/// of the containing block.
pub proof fn lemma_used_widths_fill_the_containing_block(
    values: Map<Seq<char>, Value>,
    available: int,
)
    requires
        remaining_width(values, available) < 0 || width_is_auto(values) || edge_is_auto(
            values,
            "margin-left"@,
            "margin"@,
        ) || edge_is_auto(values, "margin-right"@, "margin"@),
    ensures
        used_width(values, available) + used_margin_left(values, available) + used_margin_right(
            values,
            available,
        ) + edge(values, "border-left-width"@, "border-width"@) + edge(
            values,
            "border-right-width"@,
            "border-width"@,
        ) + edge(values, "padding-left"@, "padding"@) + edge(values, "padding-right"@, "padding"@)
            == available,
{
}

/// The geometry after the width has been resolved: the content width and
/// the left and right edges are set, the rest is kept.
pub open spec fn widened(values: Map<Seq<char>, Value>, own: Geometry, available: int) -> Geometry {
    Geometry {
        content: Area {
            x: own.content.x,
            y: own.content.y,
            width: used_width(values, available),
            height: own.content.height,
        },
        padding: Sides {
            left: edge(values, "padding-left"@, "padding"@),
            right: edge(values, "padding-right"@, "padding"@),
            top: own.padding.top,
            bottom: own.padding.bottom,
        },
        border: Sides {
            left: edge(values, "border-left-width"@, "border-width"@),
            right: edge(values, "border-right-width"@, "border-width"@),
            top: own.border.top,
            bottom: own.border.bottom,
        },
        margin: Sides {
            left: used_margin_left(values, available),
            right: used_margin_right(values, available),
            top: own.margin.top,
            bottom: own.margin.bottom,
        },
    }
}

/// The geometry after the box has been placed: the top and bottom edges are
/// set, and the content area starts inside the left edges and below all that
/// the containing block holds so far.
pub open spec fn positioned(values: Map<Seq<char>, Value>, own: Geometry, containing: Geometry) -> Geometry {
    let margin_top = edge(values, "margin-top"@, "margin"@);
    let border_top = edge(values, "border-top-width"@, "border-width"@);
    let padding_top = edge(values, "padding-top"@, "padding"@);
    Geometry {
        content: Area {
            x: containing.content.x + own.margin.left + own.border.left + own.padding.left,
            y: containing.content.height + containing.content.y + margin_top + border_top
                + padding_top,
            width: own.content.width,
            height: own.content.height,
        },
        padding: Sides {
            left: own.padding.left,
            right: own.padding.right,
            top: padding_top,
            bottom: edge(values, "padding-bottom"@, "padding"@),
        },
        border: Sides {
            left: own.border.left,
            right: own.border.right,
            top: border_top,
            bottom: edge(values, "border-bottom-width"@, "border-width"@),
        },
        margin: Sides {
            left: own.margin.left,
            right: own.margin.right,
            top: margin_top,
            bottom: edge(values, "margin-bottom"@, "margin"@),
        },
    }
}

/// The geometry of a block before its children are laid out.
pub open spec fn frame(values: Map<Seq<char>, Value>, own: Geometry, containing: Geometry) -> Geometry {
    positioned(values, widened(values, own, containing.content.width), containing)
}

/// The height in pixels that the style gives, where `height` is a length.
pub open spec fn explicit_height(values: Map<Seq<char>, Value>) -> Option<int> {
    if values.contains_key("height"@) {
        match values["height"@] {
            Value::Length(h, Unit::Px) => Some(h as int),
            _ => None,
        }
    } else {
        None
    }
}

/// The content height of a block: the height that the style gives, else the
/// height that its children have stacked up.
pub open spec fn final_height(values: Map<Seq<char>, Value>, stacked_up: int) -> int {
    match explicit_height(values) {
        Some(h) => h,
        None => stacked_up,
    }
}

/// The sum of the top and bottom margins, borders and paddings.
pub open spec fn vertical_edges(values: Map<Seq<char>, Value>) -> int {
    edge(values, "margin-top"@, "margin"@) + edge(values, "margin-bottom"@, "margin"@) + edge(
        values,
        "border-top-width"@,
        "border-width"@,
    ) + edge(values, "border-bottom-width"@, "border-width"@) + edge(
        values,
        "padding-top"@,
        "padding"@,
    ) + edge(values, "padding-bottom"@, "padding"@)
}

/// The height of the margin box that a box has once it is laid out. It
/// does not depend on the containing block.
pub open spec fn outer_height(b: &LayoutBox) -> int
    decreases b, 0int,
{
    match b.box_type {
        BoxType::BlockNode(style) => final_height(
            style.specified_values@,
            b.dimensions.content.height + stacked(b.children@, b.children@.len() as int),
        ) + vertical_edges(style.specified_values@),
        _ => b.dimensions@.margin_box().height,
    }
}

/// The height that the first `n` of the boxes take up once they are laid
/// out, one below the other.
pub open spec fn stacked(boxes: Seq<LayoutBox>, n: int) -> int
    decreases boxes, n,
{
    if n <= 0 || n > boxes.len() {
        0
    } else {
        stacked(boxes, n - 1) + outer_height(&boxes[n - 1])
    }
}

/// The containing block that child `i` of a block with geometry `own` is
/// laid out in: the block itself, as high as the children before it.
pub open spec fn child_block(own: Geometry, boxes: Seq<LayoutBox>, i: int) -> Geometry {
    own.taller(own.content.height + stacked(boxes, i))
}

/// Whether the layout of the box in the containing block can be held in
/// `i64` lengths throughout.
pub open spec fn layout_fits(b: &LayoutBox, containing: Geometry) -> bool
    decreases b,
{
    match b.box_type {
        BoxType::BlockNode(style) => {
            let own = frame(style.specified_values@, b.dimensions@, containing);
            own.fits() && children_fit(b.children@, own)
        },
        _ => true,
    }
}

/// Whether the children of a block with geometry `own` can be laid out one
/// below the other in `i64` lengths.
pub open spec fn children_fit(boxes: Seq<LayoutBox>, own: Geometry) -> bool
    decreases boxes,
{
    &&& forall|i: int| 0 <= i <= boxes.len() ==> fits(own.content.height + #[trigger] stacked(boxes, i))
    &&& forall|i: int|
        0 <= i < boxes.len() ==> layout_fits(&#[trigger] boxes[i], child_block(own, boxes, i))
}

/// `after` is the box `before` laid out in the containing block.
///
/// A block has the geometry of its frame, with the height that its style
/// gives or that its children stack up to, and each child is laid out in the
/// block as high as the children before it. Inline and anonymous boxes are
/// not laid out: they and all below them stay as they are.
pub open spec fn laid_out(after: &LayoutBox, before: &LayoutBox, containing: Geometry) -> bool
    decreases after,
{
    &&& after.box_type == before.box_type
    &&& after.children@.len() == before.children@.len()
    &&& match before.box_type {
        BoxType::BlockNode(style) => {
            let own = frame(style.specified_values@, before.dimensions@, containing);
            &&& after.dimensions@ == own.taller(
                final_height(
                    style.specified_values@,
                    own.content.height + stacked(before.children@, before.children@.len() as int),
                ),
            )
            &&& forall|i: int|
                0 <= i < after.children@.len() ==> laid_out(
                    &#[trigger] after.children@[i],
                    &before.children@[i],
                    child_block(own, before.children@, i),
                )
        },
        _ => *after == *before,
    }
}

/// A laid out box has the margin box height that was foreseen for it.
pub proof fn lemma_outer_height(after: &LayoutBox, before: &LayoutBox, containing: Geometry)
    requires
        laid_out(after, before, containing),
    ensures
        after.dimensions@.margin_box().height == outer_height(before),
{
}

/// The sum of the margin box heights of the first `n` boxes, as they are.
pub open spec fn margin_heights(boxes: Seq<LayoutBox>, n: int) -> int
    decreases n,
{
    if n <= 0 || n > boxes.len() {
        0
    } else {
        margin_heights(boxes, n - 1) + boxes[n - 1].dimensions@.margin_box().height
    }
}

proof fn lemma_stacked_is_margin_heights(
    after: Seq<LayoutBox>,
    before: Seq<LayoutBox>,
    own: Geometry,
    n: int,
)
    requires
        after.len() == before.len(),
        0 <= n <= after.len(),
        forall|i: int|
            0 <= i < after.len() ==> laid_out(
                &#[trigger] after[i],
                &before[i],
                child_block(own, before, i),
            ),
    ensures
        stacked(before, n) == margin_heights(after, n),
    decreases n,
{
    if n > 0 {
        lemma_stacked_is_margin_heights(after, before, own, n - 1);
        assert(laid_out(&after[n - 1], &before[n - 1], child_block(own, before, n - 1)));
        lemma_outer_height(&after[n - 1], &before[n - 1], child_block(own, before, n - 1));
    }
}

/// A block whose style gives a height in pixels has that content height
/// after layout, whatever its children take up.
pub proof fn lemma_explicit_height(
    after: &LayoutBox,
    before: &LayoutBox,
    containing: Geometry,
    style: &StyledNode,
    height: int,
)
    requires
        laid_out(after, before, containing),
        before.box_type == BoxType::BlockNode(style),
        explicit_height(style.specified_values@) == Some(height),
    ensures
        after.dimensions.content.height == height,
{
}

/// A block whose style gives no height in pixels, and which had no height
/// before, has after layout the sum of its children's margin box heights as
/// its content height.
pub proof fn lemma_auto_height(
    after: &LayoutBox,
    before: &LayoutBox,
    containing: Geometry,
    style: &StyledNode,
)
    requires
        laid_out(after, before, containing),
        before.box_type == BoxType::BlockNode(style),
        explicit_height(style.specified_values@) is None,
        before.dimensions.content.height == 0,
    ensures
        after.dimensions.content.height == margin_heights(
            after.children@,
            after.children@.len() as int,
        ),
{
    let own = frame(style.specified_values@, before.dimensions@, containing);
    lemma_stacked_is_margin_heights(
        after.children@,
        before.children@,
        own,
        after.children@.len() as int,
    );
}

/// Of two block children that follow one another, the margin box of the
/// second begins where the margin box of the first ends.
pub proof fn lemma_siblings_abut(
    after: &LayoutBox,
    before: &LayoutBox,
    containing: Geometry,
    i: int,
)
    requires
        laid_out(after, before, containing),
        before.box_type is BlockNode,
        0 <= i,
        i + 1 < after.children@.len(),
        before.children@[i].box_type is BlockNode,
        before.children@[i + 1].box_type is BlockNode,
    ensures
        after.children@[i + 1].dimensions@.margin_box().y == after.children@[i].dimensions@.margin_box().y
            + after.children@[i].dimensions@.margin_box().height,
{
    let style = before.box_type->BlockNode_0;
    let own = frame(style.specified_values@, before.dimensions@, containing);
    let first = &after.children@[i];
    let second = &after.children@[i + 1];
    assert(laid_out(first, &before.children@[i], child_block(own, before.children@, i)));
    assert(laid_out(second, &before.children@[i + 1], child_block(own, before.children@, i + 1)));
    lemma_outer_height(first, &before.children@[i], child_block(own, before.children@, i));
}

/// Two block children that follow one another do not overlap: where the
/// top margin, border and padding of the second are not negative in sum,
/// its content begins at or below the end of the first one's margin box.
pub proof fn lemma_siblings_do_not_overlap(
    after: &LayoutBox,
    before: &LayoutBox,
    containing: Geometry,
    i: int,
)
    requires
        laid_out(after, before, containing),
        before.box_type is BlockNode,
        0 <= i,
        i + 1 < after.children@.len(),
        before.children@[i].box_type is BlockNode,
        before.children@[i + 1].box_type is BlockNode,
        after.children@[i + 1].dimensions.margin.top + after.children@[i + 1].dimensions.border.top
            + after.children@[i + 1].dimensions.padding.top >= 0,
    ensures
        after.children@[i + 1].dimensions.content.y >= after.children@[i].dimensions@.margin_box().y
            + after.children@[i].dimensions@.margin_box().height,
{
    lemma_siblings_abut(after, before, containing, i);
}

impl<'a> LayoutBox<'a> {
    /// A box of the given type without children, with zero dimensions.
    pub fn new(box_type: BoxType<'a>) -> (b: LayoutBox<'a>)
        ensures
            b.box_type == box_type,
            b.dimensions == zero_dimensions(),
            b.children@.len() == 0,
    {
        LayoutBox { box_type, dimensions: Dimensions::default(), children: Vec::new() }
    }

    /// The styled node of a block or inline box; an anonymous block has
    /// none.
    pub fn get_style_node(&self) -> (r: Result<&'a StyledNode<'a>, LayoutError>)
        ensures
            match self.box_type {
                BoxType::BlockNode(node) => r == Ok::<&StyledNode, LayoutError>(node),
                BoxType::InlineNode(node) => r == Ok::<&StyledNode, LayoutError>(node),
                BoxType::AnonymousBlock => r == Err::<&StyledNode, LayoutError>(
                    LayoutError::AnonymousBoxStyleAccess,
                ),
            },
    {
        match self.box_type {
            BoxType::BlockNode(node) => Ok(node),
            BoxType::InlineNode(node) => Ok(node),
            BoxType::AnonymousBlock => Err(LayoutError::AnonymousBoxStyleAccess),
        }
    }

    /// Lays out the box and all below it in the containing block.
    ///
    /// Only block boxes are laid out; an inline box or an anonymous block is
    /// left as it is. On `LengthOverflow` the box is left partly laid out.
    pub fn layout(&mut self, containing_block: Dimensions) -> (r: Result<(), LayoutError>)
        ensures
            match r {
                Ok(()) => layout_fits(old(self), containing_block@) && laid_out(
                    final(self),
                    old(self),
                    containing_block@,
                ),
                Err(e) => e == LayoutError::LengthOverflow && !layout_fits(
                    old(self),
                    containing_block@,
                ),
            },
        decreases old(self).children, 2int,
    {
        match self.box_type {
            BoxType::BlockNode(_) => self.layout_block(containing_block),
            BoxType::InlineNode(_) => Ok(()),
            BoxType::AnonymousBlock => Ok(()),
        }
    }

    fn layout_block(&mut self, containing_block: Dimensions) -> (r: Result<(), LayoutError>)
        requires
            old(self).box_type is BlockNode,
        ensures
            match r {
                Ok(()) => layout_fits(old(self), containing_block@) && laid_out(
                    final(self),
                    old(self),
                    containing_block@,
                ),
                Err(e) => e == LayoutError::LengthOverflow && !layout_fits(
                    old(self),
                    containing_block@,
                ),
            },
        decreases old(self).children, 1int,
    {
        self.calculate_block_width(containing_block)?;
        self.calculate_block_position(containing_block)?;
        self.layout_block_children()?;
        self.calculate_block_height()?;
        Ok(())
    }

    /// Resolves the content width and the left and right edges.
    fn calculate_block_width(&mut self, containing_block: Dimensions) -> (r: Result<(), LayoutError>)
        ensures
            final(self).box_type == old(self).box_type,
            final(self).children == old(self).children,
            match old(self).box_type {
                BoxType::AnonymousBlock => r == Err::<(), LayoutError>(
                    LayoutError::AnonymousBoxStyleAccess,
                ),
                BoxType::BlockNode(style) | BoxType::InlineNode(style) => {
                    let g = widened(
                        style.specified_values@,
                        old(self).dimensions@,
                        containing_block@.content.width,
                    );
                    match r {
                        Ok(()) => final(self).dimensions@ == g,
                        Err(e) => e == LayoutError::LengthOverflow && !g.fits(),
                    }
                },
            },
    {
        let style: &StyledNode = self.get_style_node()?;
        let ghost values = style.specified_values@;
        let zero: Value = Value::Length(0, Unit::Px);
        let (width_auto, width): (bool, i64) = match style.value("width") {
            Some(v) => (v.is_word("auto"), v.to_px()),
            None => (true, 0),
        };
        let margin_left: Value = style.lookup("margin-left", "margin", &zero);
        let margin_right: Value = style.lookup("margin-right", "margin", &zero);
        let border_left: i64 = style.lookup("border-left-width", "border-width", &zero).to_px();
        let border_right: i64 = style.lookup("border-right-width", "border-width", &zero).to_px();
        let padding_left: i64 = style.lookup("padding-left", "padding", &zero).to_px();
        let padding_right: i64 = style.lookup("padding-right", "padding", &zero).to_px();
        let left_auto: bool = margin_left.is_word("auto");
        let right_auto: bool = margin_right.is_word("auto");
        let left: i128 = margin_left.to_px() as i128;
        let right: i128 = margin_right.to_px() as i128;
        let total: i128 = width as i128 + left + right + border_left as i128 + border_right as i128
            + padding_left as i128 + padding_right as i128;
        let rest: i128 = containing_block.content.width as i128 - total;
        assert(rest == remaining_width(values, containing_block@.content.width));
        let mut used: i128 = width as i128;
        let mut used_left: i128 = left;
        let mut used_right: i128 = right;
        if rest < 0 {
            if right_auto {
                used_right = rest;
            } else {
                used = used + rest;
            }
        } else if width_auto {
            used = rest;
        } else if left_auto && right_auto {
            used_left = rest / 2;
            used_right = rest - rest / 2;
        } else if left_auto {
            used_left = rest;
        } else if right_auto {
            used_right = rest;
        }
        assert(used == used_width(values, containing_block@.content.width));
        assert(used_left == used_margin_left(values, containing_block@.content.width));
        assert(used_right == used_margin_right(values, containing_block@.content.width));
        let w: i64 = narrowed(used)?;
        let l: i64 = narrowed(used_left)?;
        let r: i64 = narrowed(used_right)?;
        self.dimensions.content.width = w;
        self.dimensions.margin.left = l;
        self.dimensions.margin.right = r;
        self.dimensions.border.left = border_left;
        self.dimensions.border.right = border_right;
        self.dimensions.padding.left = padding_left;
        self.dimensions.padding.right = padding_right;
        Ok(())
    }

    /// Resolves the top and bottom edges and places the content area.
    fn calculate_block_position(&mut self, containing_block: Dimensions) -> (r: Result<
        (),
        LayoutError,
    >)
        ensures
            final(self).box_type == old(self).box_type,
            final(self).children == old(self).children,
            match old(self).box_type {
                BoxType::AnonymousBlock => r == Err::<(), LayoutError>(
                    LayoutError::AnonymousBoxStyleAccess,
                ),
                BoxType::BlockNode(style) | BoxType::InlineNode(style) => {
                    let g = positioned(
                        style.specified_values@,
                        old(self).dimensions@,
                        containing_block@,
                    );
                    match r {
                        Ok(()) => final(self).dimensions@ == g,
                        Err(e) => e == LayoutError::LengthOverflow && !g.fits(),
                    }
                },
            },
    {
        let style: &StyledNode = self.get_style_node()?;
        let zero: Value = Value::Length(0, Unit::Px);
        let margin_top: i64 = style.lookup("margin-top", "margin", &zero).to_px();
        let margin_bottom: i64 = style.lookup("margin-bottom", "margin", &zero).to_px();
        let border_top: i64 = style.lookup("border-top-width", "border-width", &zero).to_px();
        let border_bottom: i64 = style.lookup("border-bottom-width", "border-width", &zero).to_px();
        let padding_top: i64 = style.lookup("padding-top", "padding", &zero).to_px();
        let padding_bottom: i64 = style.lookup("padding-bottom", "padding", &zero).to_px();
        let x: i64 = narrowed(
            containing_block.content.x as i128 + self.dimensions.margin.left as i128
                + self.dimensions.border.left as i128 + self.dimensions.padding.left as i128,
        )?;
        let y: i64 = narrowed(
            containing_block.content.height as i128 + containing_block.content.y as i128
                + margin_top as i128 + border_top as i128 + padding_top as i128,
        )?;
        self.dimensions.margin.top = margin_top;
        self.dimensions.margin.bottom = margin_bottom;
        self.dimensions.border.top = border_top;
        self.dimensions.border.bottom = border_bottom;
        self.dimensions.padding.top = padding_top;
        self.dimensions.padding.bottom = padding_bottom;
        self.dimensions.content.x = x;
        self.dimensions.content.y = y;
        Ok(())
    }

    /// Lays out the children one below the other and adds their heights to
    /// the content height.
    fn layout_block_children(&mut self) -> (r: Result<(), LayoutError>)
        ensures
            match r {
                Ok(()) => {
                    &&& children_fit(old(self).children@, old(self).dimensions@)
                    &&& final(self).box_type == old(self).box_type
                    &&& final(self).children@.len() == old(self).children@.len()
                    &&& final(self).dimensions@ == child_block(
                        old(self).dimensions@,
                        old(self).children@,
                        old(self).children@.len() as int,
                    )
                    &&& forall|i: int|
                        0 <= i < final(self).children@.len() ==> laid_out(
                            &#[trigger] final(self).children@[i],
                            &old(self).children@[i],
                            child_block(old(self).dimensions@, old(self).children@, i),
                        )
                },
                Err(e) => e == LayoutError::LengthOverflow && !children_fit(
                    old(self).children@,
                    old(self).dimensions@,
                ),
            },
        decreases old(self).children, 0int,
    {
        let ghost own = self.dimensions@;
        let ghost boxes = self.children@;
        let n: usize = self.children.len();
        let mut i: usize = 0;
        while i < n
            invariant
                own == old(self).dimensions@,
                boxes == old(self).children@,
                n == boxes.len(),
                i <= n,
                self.box_type == old(self).box_type,
                self.children@.len() == n,
                self.dimensions@ == child_block(own, boxes, i as int),
                forall|k: int| 0 <= k <= i ==> fits(own.content.height + #[trigger] stacked(boxes, k)),
                forall|k: int|
                    0 <= k < i ==> layout_fits(&#[trigger] boxes[k], child_block(own, boxes, k)),
                forall|k: int|
                    0 <= k < i ==> laid_out(
                        &#[trigger] self.children@[k],
                        &boxes[k],
                        child_block(own, boxes, k),
                    ),
                forall|k: int| i <= k < n ==> self.children@[k] == boxes[k],
            decreases n - i,
        {
            let containing: Dimensions = self.dimensions;
            match self.children[i].layout(containing) {
                Ok(()) => {},
                Err(e) => {
                    return Err(e);
                },
            }
            proof {
                lemma_outer_height(&self.children@[i as int], &boxes[i as int], containing@);
            }
            let height: i128 = self.dimensions.content.height as i128
                + self.children[i].dimensions.margin_box_height();
            assert(height == own.content.height + stacked(boxes, i + 1));
            let fitted: i64 = narrowed(height)?;
            self.dimensions.content.height = fitted;
            i += 1;
        }
        Ok(())
    }

    /// Gives the content the height that the style asks for, if it asks for
    /// one in pixels.
    fn calculate_block_height(&mut self) -> (r: Result<(), LayoutError>)
        ensures
            final(self).box_type == old(self).box_type,
            final(self).children == old(self).children,
            match old(self).box_type {
                BoxType::AnonymousBlock => r == Err::<(), LayoutError>(
                    LayoutError::AnonymousBoxStyleAccess,
                ),
                BoxType::BlockNode(style) | BoxType::InlineNode(style) => r is Ok
                    && final(self).dimensions@ == old(self).dimensions@.taller(
                    final_height(style.specified_values@, old(self).dimensions@.content.height),
                ),
            },
    {
        let style: &StyledNode = self.get_style_node()?;
        match style.value("height") {
            Some(Value::Length(h, Unit::Px)) => {
                self.dimensions.content.height = h;
            },
            _ => {},
        }
        Ok(())
    }
}

/// A box tree as a mathematical value.
pub ghost struct BoxTree<'a> {
    pub dimensions: Dimensions,
    pub box_type: BoxType<'a>,
    pub children: Seq<BoxTree<'a>>,
}

/// The box tree that a box and all below it stand for.
pub open spec fn box_tree<'a>(b: &LayoutBox<'a>) -> BoxTree<'a>
    decreases b,
{
    BoxTree {
        dimensions: b.dimensions,
        box_type: b.box_type,
        children: Seq::new(
            b.children@.len(),
            |i: int|
                if 0 <= i < b.children@.len() {
                    box_tree(&b.children@[i])
                } else {
                    anonymous_block(Seq::empty())
                },
        ),
    }
}

impl<'a> View for LayoutBox<'a> {
    type V = BoxTree<'a>;

    open spec fn view(&self) -> BoxTree<'a> {
        box_tree(self)
    }
}

/// The view of a box holds the views of its children, in order.
pub proof fn lemma_view_children(b: &LayoutBox)
    ensures
        b@.dimensions == b.dimensions,
        b@.box_type == b.box_type,
        b@.children.len() == b.children@.len(),
        forall|i: int| 0 <= i < b.children@.len() ==> b@.children[i] == (#[trigger] b.children@[i])@,
{
}

/// An anonymous block, not yet laid out, around the given boxes.
pub open spec fn anonymous_block<'a>(children: Seq<BoxTree<'a>>) -> BoxTree<'a> {
    BoxTree { dimensions: zero_dimensions(), box_type: BoxType::AnonymousBlock, children: children }
}

/// The type of the box that a displayed styled node gets.
pub open spec fn box_for<'a>(style: &'a StyledNode<'a>) -> BoxType<'a> {
    if display_of(style.specified_values@) == Display::Block {
        BoxType::BlockNode(style)
    } else {
        BoxType::InlineNode(style)
    }
}

/// The children of a block after an inline-level box has been added: the
/// box goes into the anonymous block at the end, and where the last child is
/// no anonymous block, a new one is added for it.
pub open spec fn with_inline<'a>(boxes: Seq<BoxTree<'a>>, child: BoxTree<'a>) -> Seq<BoxTree<'a>> {
    if boxes.len() > 0 && boxes.last().box_type is AnonymousBlock {
        boxes.update(
            boxes.len() - 1,
            BoxTree {
                dimensions: boxes.last().dimensions,
                box_type: boxes.last().box_type,
                children: boxes.last().children.push(child),
            },
        )
    } else {
        boxes.push(anonymous_block(seq![child]))
    }
}

/// The box tree of a styled node that is displayed.
pub open spec fn tree_of<'a>(style: &'a StyledNode<'a>) -> BoxTree<'a>
    decreases style, 0int,
{
    BoxTree {
        dimensions: zero_dimensions(),
        box_type: box_for(style),
        children: placed(
            style.children@,
            style.children@.len() as int,
            display_of(style.specified_values@) == Display::Block,
        ),
    }
}

/// The boxes that the first `n` of the styled nodes give as children of a
/// box, which is a block (`in_block`) or an inline box.
///
/// A node that is not displayed gives nothing. A block-level node gives a
/// child of its own. An inline-level node gives a child of its own inside an
/// inline box, and inside a block goes into the anonymous block at the end.
pub open spec fn placed<'a>(nodes: Seq<StyledNode<'a>>, n: int, in_block: bool) -> Seq<BoxTree<'a>>
    decreases nodes, n,
{
    if n <= 0 || n > nodes.len() {
        Seq::empty()
    } else {
        let earlier = placed(nodes, n - 1, in_block);
        match display_of(nodes[n - 1].specified_values@) {
            Display::Hidden => earlier,
            Display::Block => earlier.push(tree_of(&nodes[n - 1])),
            Display::Inline => if in_block {
                with_inline(earlier, tree_of(&nodes[n - 1]))
            } else {
                earlier.push(tree_of(&nodes[n - 1]))
            },
        }
    }
}

/// The box tree `tree` stems from the styled node `style`: the node is
/// displayed, the box at the root stands for it, and each box below the root
/// comes from one of the node's children in the same way.
pub open spec fn stems_from<'a>(tree: BoxTree<'a>, style: &'a StyledNode<'a>) -> bool
    decreases tree, 0int,
{
    &&& display_of(style.specified_values@) != Display::Hidden
    &&& tree.box_type == box_for(style)
    &&& forall|i: int|
        0 <= i < tree.children.len() ==> comes_from(#[trigger] tree.children[i], style.children@)
}

/// The child box `tree` comes from the styled nodes `nodes`: it stems from
/// one of them, or it is an anonymous block and each box in it stems from
/// one of them.
pub open spec fn comes_from<'a>(tree: BoxTree<'a>, nodes: Seq<StyledNode<'a>>) -> bool
    decreases tree, 1int,
{
    if tree.box_type is AnonymousBlock {
        forall|j: int|
            0 <= j < tree.children.len() ==> exists|k: int|
                0 <= k < nodes.len() && stems_from(#[trigger] tree.children[j], &nodes[k])
    } else {
        exists|k: int| 0 <= k < nodes.len() && stems_from(tree, &nodes[k])
    }
}

/// Every box of the box tree of a displayed node stems from a displayed
/// node whose parent is displayed too, up to the root: a node that is not
/// displayed has no box, and neither has any node below it.
pub proof fn lemma_boxes_stem_from_displayed_nodes<'a>(style: &'a StyledNode<'a>)
    requires
        display_of(style.specified_values@) != Display::Hidden,
    ensures
        stems_from(tree_of(style), style),
    decreases style, 0int,
{
    let in_block = display_of(style.specified_values@) == Display::Block;
    let n = style.children@.len() as int;
    lemma_placed_come_from_nodes(style.children@, n, in_block);
    let tree = tree_of(style);
    assert(tree.children == placed(style.children@, n, in_block));
    assert forall|i: int| 0 <= i < tree.children.len() implies comes_from(
        #[trigger] tree.children[i],
        style.children@,
    ) by {
        assert(tree.children[i] == placed(style.children@, n, in_block)[i]);
    }
}

proof fn lemma_placed_come_from_nodes<'a>(nodes: Seq<StyledNode<'a>>, n: int, in_block: bool)
    requires
        0 <= n <= nodes.len(),
    ensures
        forall|i: int|
            0 <= i < placed(nodes, n, in_block).len() ==> comes_from(
                #[trigger] placed(nodes, n, in_block)[i],
                nodes,
            ),
    decreases nodes, n,
{
    if n > 0 {
        lemma_placed_come_from_nodes(nodes, n - 1, in_block);
        let earlier = placed(nodes, n - 1, in_block);
        let now = placed(nodes, n, in_block);
        let node = &nodes[n - 1];
        if display_of(node.specified_values@) != Display::Hidden {
            lemma_boxes_stem_from_displayed_nodes(node);
            let tree = tree_of(node);
            assert(stems_from(tree, &nodes[n - 1]));
            assert(!(tree.box_type is AnonymousBlock));
            if display_of(node.specified_values@) == Display::Inline && in_block {
                if earlier.len() > 0 && earlier.last().box_type is AnonymousBlock {
                    let last = earlier.last();
                    let filled = now[earlier.len() - 1];
                    assert(comes_from(last, nodes));
                    assert forall|j: int| 0 <= j < filled.children.len() implies exists|k: int|
                        0 <= k < nodes.len() && stems_from(
                            #[trigger] filled.children[j],
                            &nodes[k],
                        ) by {
                        if j < last.children.len() {
                            assert(filled.children[j] == last.children[j]);
                        } else {
                            assert(filled.children[j] == tree);
                        }
                    }
                    assert(comes_from(filled, nodes));
                    assert forall|i: int| 0 <= i < now.len() implies comes_from(
                        #[trigger] now[i],
                        nodes,
                    ) by {
                        if i < earlier.len() - 1 {
                            assert(now[i] == earlier[i]);
                        }
                    }
                } else {
                    let fresh = now[earlier.len() as int];
                    assert(fresh.children[0] == tree);
                    assert(comes_from(fresh, nodes));
                    assert forall|i: int| 0 <= i < now.len() implies comes_from(
                        #[trigger] now[i],
                        nodes,
                    ) by {
                        if i < earlier.len() {
                            assert(now[i] == earlier[i]);
                        }
                    }
                }
            } else {
                assert(now =~= earlier.push(tree));
                assert(comes_from(tree, nodes));
                assert forall|i: int| 0 <= i < now.len() implies comes_from(
                    #[trigger] now[i],
                    nodes,
                ) by {
                    if i < earlier.len() {
                        assert(now[i] == earlier[i]);
                    }
                }
            }
        }
    }
}

/// No two anonymous blocks stand side by side: inline-level nodes that
/// follow one another share one anonymous block.
pub proof fn lemma_no_adjacent_anonymous_blocks<'a>(
    nodes: Seq<StyledNode<'a>>,
    n: int,
    in_block: bool,
)
    requires
        0 <= n <= nodes.len(),
    ensures
        forall|i: int|
            0 <= i && i + 1 < placed(nodes, n, in_block).len() ==> !((#[trigger] placed(
                nodes,
                n,
                in_block,
            )[i]).box_type is AnonymousBlock && placed(
                nodes,
                n,
                in_block,
            )[i + 1].box_type is AnonymousBlock),
    decreases n,
{
    if n > 0 {
        lemma_no_adjacent_anonymous_blocks(nodes, n - 1, in_block);
        let earlier = placed(nodes, n - 1, in_block);
        let now = placed(nodes, n, in_block);
        assert(!(tree_of(&nodes[n - 1]).box_type is AnonymousBlock));
        assert forall|i: int| 0 <= i && i + 1 < now.len() implies !((#[trigger] now[i]).box_type is AnonymousBlock
            && now[i + 1].box_type is AnonymousBlock) by {
            if i + 1 < earlier.len() {
                assert(now[i].box_type == earlier[i].box_type);
                assert(now[i + 1].box_type == earlier[i + 1].box_type);
            }
        }
    }
}

impl<'a> LayoutBox<'a> {
    /// The box that takes the next inline-level child.
    ///
    /// An inline box or an anonymous block takes it itself. A block hands
    /// out the anonymous block at the end of its children, and adds one
    /// first where its last child is none.
    pub fn get_inline_container(&mut self) -> (r: &mut LayoutBox<'a>)
        ensures
            !(old(self).box_type is BlockNode) ==> *r == *old(self) && *final(self) == *final(r),
            old(self).box_type is BlockNode ==> {
                let reuse = old(self).children@.len() > 0
                    && old(self).children@.last().box_type is AnonymousBlock;
                &&& final(self).box_type == old(self).box_type
                &&& final(self).dimensions == old(self).dimensions
                &&& final(self).children@.len() > 0
                &&& final(self).children@.last() == *final(r)
                &&& final(self).children@.drop_last() == (if reuse {
                    old(self).children@.drop_last()
                } else {
                    old(self).children@
                })
                &&& (reuse ==> *r == old(self).children@.last())
                &&& (!reuse ==> r.box_type is AnonymousBlock && r.dimensions == zero_dimensions()
                    && r.children@.len() == 0)
            },
    {
        match self.box_type {
            BoxType::InlineNode(_) | BoxType::AnonymousBlock => self,
            BoxType::BlockNode(_) => {
                let n: usize = self.children.len();
                let reuse: bool = n > 0 && match self.children[n - 1].box_type {
                    BoxType::AnonymousBlock => true,
                    _ => false,
                };
                if !reuse {
                    self.children.push(LayoutBox::new(BoxType::AnonymousBlock));
                }
                let m: usize = self.children.len();
                let r = &mut self.children[m - 1];
                r
            },
        }
    }
}

/// Builds the box tree of a styled tree.
///
/// Nodes that are not displayed are left out with all below them; the root
/// itself has to be displayed, else the result is `RootDisplayNone`. No
/// geometry is computed: all dimensions are zero.
pub fn build_layout_tree<'a>(style_node: &'a StyledNode<'a>) -> (r: Result<
    LayoutBox<'a>,
    LayoutError,
>)
    ensures
        match r {
            Ok(b) => display_of(style_node.specified_values@) != Display::Hidden && b@ == tree_of(
                style_node,
            ),
            Err(e) => e == LayoutError::RootDisplayNone && display_of(style_node.specified_values@)
                == Display::Hidden,
        },
    decreases style_node,
{
    let box_type: BoxType<'a> = match style_node.display() {
        Display::Block => BoxType::BlockNode(style_node),
        Display::Inline => BoxType::InlineNode(style_node),
        Display::Hidden => {
            return Err(LayoutError::RootDisplayNone);
        },
    };
    let mut root: LayoutBox<'a> = LayoutBox::new(box_type);
    let ghost in_block = display_of(style_node.specified_values@) == Display::Block;
    let n: usize = style_node.children.len();
    let mut i: usize = 0;
    assert(root@.children =~= placed(style_node.children@, 0, in_block));
    while i < n
        invariant
            n == style_node.children@.len(),
            i <= n,
            in_block == (display_of(style_node.specified_values@) == Display::Block),
            in_block == (root.box_type is BlockNode),
            !(root.box_type is AnonymousBlock),
            root.box_type == box_for(style_node),
            root.dimensions == zero_dimensions(),
            root@.children == placed(style_node.children@, i as int, in_block),
        decreases n - i,
    {
        let child: &'a StyledNode<'a> = &style_node.children[i];
        let ghost earlier = root@.children;
        let ghost before = root.children@;
        proof {
            lemma_view_children(&root);
        }
        match child.display() {
            Display::Block => {
                let b: LayoutBox<'a> = build_layout_tree(child)?;
                root.children.push(b);
                proof {
                    lemma_view_children(&root);
                }
                assert(root@.children =~= earlier.push(tree_of(child)));
            },
            Display::Inline => {
                let b: LayoutBox<'a> = build_layout_tree(child)?;
                let container = root.get_inline_container();
                let ghost held = *container;
                proof {
                    lemma_view_children(container);
                }
                container.children.push(b);
                let ghost filled = *container;
                proof {
                    lemma_view_children(container);
                    assert(filled@.children =~= held@.children.push(tree_of(child)));
                    lemma_view_children(&root);
                    let now = root.children@;
                    if in_block {
                        assert(now.last() == filled);
                        assert(now.drop_last().len() == now.len() - 1);
                        if before.len() > 0 && before.last().box_type is AnonymousBlock {
                            assert(before.drop_last().len() == before.len() - 1);
                            assert(held == before[before.len() - 1]);
                            assert forall|k: int| 0 <= k < now.len() - 1 implies now[k]
                                == before[k] by {
                                assert(now.drop_last()[k] == now[k]);
                                assert(before.drop_last()[k] == before[k]);
                            }
                        } else {
                            assert forall|k: int| 0 <= k < now.len() - 1 implies now[k]
                                == before[k] by {
                                assert(now.drop_last()[k] == now[k]);
                            }
                            assert(filled@.children =~= seq![tree_of(child)]);
                        }
                        assert(root@.children =~= with_inline(earlier, tree_of(child)));
                    } else {
                        assert(root@.children =~= earlier.push(tree_of(child)));
                    }
                }
            },
            Display::Hidden => {},
        }
        i += 1;
    }
    Ok(root)
}

} // verus!
