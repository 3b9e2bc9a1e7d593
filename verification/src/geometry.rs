use vstd::prelude::*;

verus! {

/// The eight compass directions along which capture rays are scanned.
#[derive(Debug, PartialEq, Eq, Structural, Clone, Copy)]
pub enum Vector {
    TopLeft,
    Top,
    TopRight,
    Right,
    BottomRight,
    Bottom,
    BottomLeft,
    Left,
}

impl Vector {
    /// Unit offset of this direction along the x axis.
    pub open spec fn dx(self) -> int {
        match self {
            Vector::TopLeft => -1,
            Vector::Top => 0,
            Vector::TopRight => 1,
            Vector::Right => 1,
            Vector::BottomRight => 1,
            Vector::Bottom => 0,
            Vector::BottomLeft => -1,
            Vector::Left => -1,
        }
    }

    /// Unit offset of this direction along the y axis.
    pub open spec fn dy(self) -> int {
        match self {
            Vector::TopLeft => -1,
            Vector::Top => -1,
            Vector::TopRight => -1,
            Vector::Right => 0,
            Vector::BottomRight => 1,
            Vector::Bottom => 1,
            Vector::BottomLeft => 1,
            Vector::Left => 0,
        }
    }

    /// All eight directions, in the fixed order used to scan rays.
    pub fn values() -> (r: Vec<Vector>)
        ensures
            r@ =~= seq![
                Vector::TopLeft,
                Vector::Top,
                Vector::TopRight,
                Vector::Right,
                Vector::BottomRight,
                Vector::Bottom,
                Vector::BottomLeft,
                Vector::Left,
            ],
    {
        vec![
            Vector::TopLeft,
            Vector::Top,
            Vector::TopRight,
            Vector::Right,
            Vector::BottomRight,
            Vector::Bottom,
            Vector::BottomLeft,
            Vector::Left,
        ]
    }
}

/// A column/row pair; validity against a board is the board's concern.
#[derive(Debug, PartialEq, Eq, Structural, Clone, Copy)]
pub struct Point {
    pub x: i32,
    pub y: i32,
}

impl Point {
    pub fn new(x: i32, y: i32) -> (r: Self)
        ensures
            r.x == x,
            r.y == y,
    {
        Self { x, y }
    }

    /// Whether one step along `vector` stays within the i32 range.
    pub open spec fn can_step(self, vector: Vector) -> bool {
        i32::MIN <= self.x + vector.dx() <= i32::MAX
            && i32::MIN <= self.y + vector.dy() <= i32::MAX
    }

    /// The point one unit away along `vector`.
    pub fn move_point(&self, vector: Vector) -> (r: Self)
        requires
            self.can_step(vector),
        ensures
            r.x == self.x + vector.dx(),
            r.y == self.y + vector.dy(),
    {
        match vector {
            Vector::TopLeft => Self::new(self.x - 1, self.y - 1),
            Vector::Top => Self::new(self.x, self.y - 1),
            Vector::TopRight => Self::new(self.x + 1, self.y - 1),
            Vector::Right => Self::new(self.x + 1, self.y),
            Vector::BottomRight => Self::new(self.x + 1, self.y + 1),
            Vector::Bottom => Self::new(self.x, self.y + 1),
            Vector::BottomLeft => Self::new(self.x - 1, self.y + 1),
            Vector::Left => Self::new(self.x - 1, self.y),
        }
    }
}

} // verus!
