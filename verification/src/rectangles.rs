//! A rectangle with area methods, and comparing rectangles by area.
use vstd::prelude::*;

verus! {

/// A rectangle described by its width and height.
#[derive(Debug)]
pub struct Rectangle {
    pub width: u32,
    pub height: u32,
}

impl Rectangle {
    /// The rectangle's area.
    pub fn area(&self) -> (r: u32)
        requires
            self.width * self.height <= u32::MAX,
        ensures
            r == self.width * self.height,
    {
        self.width * self.height
    }

    /// Whether this rectangle's area is at least the other's.
    pub fn can_hold(&self, other: &Rectangle) -> (r: bool)
        requires
            self.width * self.height <= u32::MAX,
            other.width * other.height <= u32::MAX,
        ensures
            r == (self.width * self.height >= other.width * other.height),
    {
        self.area() >= other.area()
    }
}

/// The area of a rectangle given by its sides.
pub fn area(width: u32, height: u32) -> (r: u32)
    requires
        width * height <= u32::MAX,
    ensures
        r == width * height,
{
    width * height
}

/// The area of a rectangle passed as a structure.
pub fn area_as_struct(rectangle: &Rectangle) -> (r: u32)
    requires
        rectangle.width * rectangle.height <= u32::MAX,
    ensures
        r == rectangle.width * rectangle.height,
{
    rectangle.width * rectangle.height
}

} // verus!
