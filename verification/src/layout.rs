//! The layout settings of a UI node that are plain choices among variants, with their defaults.
use vstd::prelude::*;

verus! {

/// Which layout algorithm positions a UI node.
#[derive(Clone, Copy, PartialEq, Eq, Debug, Structural)]
pub enum LayoutStrategy {
    /// The absolute position and size given.
    NoLayout,
    /// The flexbox algorithm.
    Flex,
}

impl Default for LayoutStrategy {
    fn default() -> (r: Self)
        ensures
            r == LayoutStrategy::Flex,
    {
        LayoutStrategy::Flex
    }
}

/// How a UI node is positioned.
#[derive(Clone, Copy, PartialEq, Eq, Debug, Structural)]
pub enum PositionType {
    /// Relative to the other relatively positioned nodes.
    Relative,
    /// As if it were the only child of its parent.
    Absolute,
}

impl Default for PositionType {
    fn default() -> (r: Self)
        ensures
            r == PositionType::Relative,
    {
        PositionType::Relative
    }
}

/// The direction text is written in.
#[derive(Clone, Copy, PartialEq, Eq, Debug, Structural)]
pub enum TextDirection {
    /// As the parent node.
    Inherit,
    /// Left to right.
    LeftToRight,
    /// Right to left.
    RightToLeft,
}

impl Default for TextDirection {
    fn default() -> (r: Self)
        ensures
            r == TextDirection::Inherit,
    {
        TextDirection::Inherit
    }
}

/// Whether items that overflow a node are shown.
#[derive(Clone, Copy, PartialEq, Eq, Debug, Structural)]
pub enum Overflow {
    /// Shown.
    Visible,
    /// Hidden.
    Hidden,
}

impl Default for Overflow {
    fn default() -> (r: Self)
        ensures
            r == Overflow::Visible,
    {
        Overflow::Visible
    }
}

/// Whether the children of a node stand on one line or on several.
#[derive(Clone, Copy, PartialEq, Eq, Debug, Structural)]
pub enum Wrap {
    /// One line, overflowing when needed.
    NoWrap,
    /// Several lines when needed.
    Wrap,
    /// Several lines, each new one before the previous one.
    WrapReverse,
}

impl Default for Wrap {
    fn default() -> (r: Self)
        ensures
            r == Wrap::NoWrap,
    {
        Wrap::NoWrap
    }
}

/// How the items of a flexbox are ordered.
#[derive(Clone, Copy, PartialEq, Eq, Debug, Structural)]
pub enum FlexDirection {
    /// Along the text direction.
    Row,
    /// From top to bottom.
    Column,
    /// Against the text direction.
    RowReverse,
    /// From bottom to top.
    ColumnReverse,
}

impl Default for FlexDirection {
    fn default() -> (r: Self)
        ensures
            r == FlexDirection::Row,
    {
        FlexDirection::Row
    }
}

/// How items are aligned on the cross axis.
#[derive(Clone, Copy, PartialEq, Eq, Debug, Structural)]
pub enum AlignItems {
    /// At the start.
    FlexStart,
    /// At the end.
    FlexEnd,
    /// At the center.
    Center,
    /// At the baseline.
    Baseline,
    /// Stretched across the whole axis.
    Stretch,
}

impl Default for AlignItems {
    fn default() -> (r: Self)
        ensures
            r == AlignItems::Stretch,
    {
        AlignItems::Stretch
    }
}

/// How one item is aligned on the cross axis, over its parent's `AlignItems`.
#[derive(Clone, Copy, PartialEq, Eq, Debug, Structural)]
pub enum AlignSelf {
    /// As the parent's `AlignItems` says.
    Auto,
    /// At the start.
    FlexStart,
    /// At the end.
    FlexEnd,
    /// At the center.
    Center,
    /// At the baseline.
    Baseline,
    /// Stretched across the whole axis.
    Stretch,
}

impl Default for AlignSelf {
    fn default() -> (r: Self)
        ensures
            r == AlignSelf::Auto,
    {
        AlignSelf::Auto
    }
}

/// How the lines of a wrapping flexbox are aligned on the cross axis.
#[derive(Clone, Copy, PartialEq, Eq, Debug, Structural)]
pub enum AlignContent {
    /// Towards the start.
    FlexStart,
    /// Towards the end.
    FlexEnd,
    /// Towards the center.
    Center,
    /// Stretched to fill the space left.
    Stretch,
    /// The space left between the lines.
    SpaceBetween,
    /// The space left around the lines.
    SpaceAround,
}

impl Default for AlignContent {
    fn default() -> (r: Self)
        ensures
            r == AlignContent::Stretch,
    {
        AlignContent::Stretch
    }
}

/// How items are aligned on the main axis.
#[derive(Clone, Copy, PartialEq, Eq, Debug, Structural)]
pub enum JustifyContent {
    /// Pushed towards the start.
    FlexStart,
    /// Pushed towards the end.
    FlexEnd,
    /// Centered.
    Center,
    /// The space left between the items.
    SpaceBetween,
    /// The space left around the items.
    SpaceAround,
    /// The space left evenly between and around the items.
    SpaceEvenly,
}

impl Default for JustifyContent {
    fn default() -> (r: Self)
        ensures
            r == JustifyContent::FlexStart,
    {
        JustifyContent::FlexStart
    }
}

} // verus!
