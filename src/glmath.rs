use vstd::prelude::*;

verus! {

/// A two-component vector.
#[derive(Debug, Clone, Copy)]
pub struct Vec2<T: PartialOrd + Copy> {
    pub x: T,
    pub y: T,
}

/// A three-component vector.
#[derive(Debug, Clone, Copy)]
pub struct Vec3<T: PartialOrd + Copy> {
    pub x: T,
    pub y: T,
    pub z: T,
}

/// A four-component vector.
#[derive(Debug, Clone, Copy)]
pub struct Vec4<T: PartialOrd + Copy> {
    pub x: T,
    pub y: T,
    pub z: T,
    pub w: T,
}

impl<T: PartialOrd + Copy> Vec2<T> {
    pub fn new(x: T, y: T) -> (r: Vec2<T>)
        ensures
            r.x == x && r.y == y,
    {
        Vec2 { x, y }
    }
}

impl<T: PartialOrd + Copy> Vec3<T> {
    pub fn new(x: T, y: T, z: T) -> (r: Vec3<T>)
        ensures
            r.x == x && r.y == y && r.z == z,
    {
        Vec3 { x, y, z }
    }
}

impl<T: PartialOrd + Copy> Vec4<T> {
    pub fn new(x: T, y: T, z: T, w: T) -> (r: Vec4<T>)
        ensures
            r.x == x && r.y == y && r.z == z && r.w == w,
    {
        Vec4 { x, y, z, w }
    }
}

/// Reading the first two components, and the vectors made of them.
pub trait TwoDimVec<T: PartialOrd + Copy> {
    spec fn spec_x(&self) -> T;

    fn x(&self) -> (r: &T)
        ensures
            *r == self.spec_x(),
    ;

    spec fn spec_y(&self) -> T;

    fn y(&self) -> (r: &T)
        ensures
            *r == self.spec_y(),
    ;

    fn xy(&self) -> (r: Vec2<T>)
        ensures
            r.x == self.spec_x() && r.y == self.spec_y(),
    ;

    fn yx(&self) -> (r: Vec2<T>)
        ensures
            r.x == self.spec_y() && r.y == self.spec_x(),
    ;
}

/// Reading the third component, and the vectors made of the first three.
pub trait ThreeDimVec<T: PartialOrd + Copy>: TwoDimVec<T> {
    spec fn spec_z(&self) -> T;

    fn z(&self) -> (r: &T)
        ensures
            *r == self.spec_z(),
    ;

    fn xyz(&self) -> (r: Vec3<T>)
        ensures
            r.x == self.spec_x() && r.y == self.spec_y() && r.z == self.spec_z(),
    ;

    fn yxz(&self) -> (r: Vec3<T>)
        ensures
            r.x == self.spec_y() && r.y == self.spec_x() && r.z == self.spec_z(),
    ;

    fn zxy(&self) -> (r: Vec3<T>)
        ensures
            r.x == self.spec_z() && r.y == self.spec_x() && r.z == self.spec_y(),
    ;

    fn xzy(&self) -> (r: Vec3<T>)
        ensures
            r.x == self.spec_x() && r.y == self.spec_z() && r.z == self.spec_y(),
    ;

    fn yzx(&self) -> (r: Vec3<T>)
        ensures
            r.x == self.spec_y() && r.y == self.spec_z() && r.z == self.spec_x(),
    ;

    fn zyx(&self) -> (r: Vec3<T>)
        ensures
            r.x == self.spec_z() && r.y == self.spec_y() && r.z == self.spec_x(),
    ;
}

/// Reading the fourth component, and the vectors made of all four.
pub trait FourDimVec<T: PartialOrd + Copy>: ThreeDimVec<T> {
    spec fn spec_w(&self) -> T;

    fn w(&self) -> (r: &T)
        ensures
            *r == self.spec_w(),
    ;

    fn xyzw(&self) -> (r: Vec4<T>)
        ensures
            r.x == self.spec_x() && r.y == self.spec_y() && r.z == self.spec_z() && r.w == self.spec_w(),
    ;

    fn yxzw(&self) -> (r: Vec4<T>)
        ensures
            r.x == self.spec_y() && r.y == self.spec_x() && r.z == self.spec_z() && r.w == self.spec_w(),
    ;

    fn zxyw(&self) -> (r: Vec4<T>)
        ensures
            r.x == self.spec_z() && r.y == self.spec_x() && r.z == self.spec_y() && r.w == self.spec_w(),
    ;

    fn xzyw(&self) -> (r: Vec4<T>)
        ensures
            r.x == self.spec_x() && r.y == self.spec_z() && r.z == self.spec_y() && r.w == self.spec_w(),
    ;

    fn yzxw(&self) -> (r: Vec4<T>)
        ensures
            r.x == self.spec_y() && r.y == self.spec_z() && r.z == self.spec_x() && r.w == self.spec_w(),
    ;

    fn zyxw(&self) -> (r: Vec4<T>)
        ensures
            r.x == self.spec_z() && r.y == self.spec_y() && r.z == self.spec_x() && r.w == self.spec_w(),
    ;

    fn zywx(&self) -> (r: Vec4<T>)
        ensures
            r.x == self.spec_z() && r.y == self.spec_y() && r.z == self.spec_w() && r.w == self.spec_x(),
    ;

    fn yzwx(&self) -> (r: Vec4<T>)
        ensures
            r.x == self.spec_y() && r.y == self.spec_z() && r.z == self.spec_w() && r.w == self.spec_x(),
    ;

    fn wzyx(&self) -> (r: Vec4<T>)
        ensures
            r.x == self.spec_w() && r.y == self.spec_z() && r.z == self.spec_y() && r.w == self.spec_x(),
    ;

    fn zwyx(&self) -> (r: Vec4<T>)
        ensures
            r.x == self.spec_z() && r.y == self.spec_w() && r.z == self.spec_y() && r.w == self.spec_x(),
    ;

    fn ywzx(&self) -> (r: Vec4<T>)
        ensures
            r.x == self.spec_y() && r.y == self.spec_w() && r.z == self.spec_z() && r.w == self.spec_x(),
    ;

    fn wyzx(&self) -> (r: Vec4<T>)
        ensures
            r.x == self.spec_w() && r.y == self.spec_y() && r.z == self.spec_z() && r.w == self.spec_x(),
    ;

    fn wxzy(&self) -> (r: Vec4<T>)
        ensures
            r.x == self.spec_w() && r.y == self.spec_x() && r.z == self.spec_z() && r.w == self.spec_y(),
    ;

    fn xwzy(&self) -> (r: Vec4<T>)
        ensures
            r.x == self.spec_x() && r.y == self.spec_w() && r.z == self.spec_z() && r.w == self.spec_y(),
    ;

    fn zwxy(&self) -> (r: Vec4<T>)
        ensures
            r.x == self.spec_z() && r.y == self.spec_w() && r.z == self.spec_x() && r.w == self.spec_y(),
    ;

    fn wzxy(&self) -> (r: Vec4<T>)
        ensures
            r.x == self.spec_w() && r.y == self.spec_z() && r.z == self.spec_x() && r.w == self.spec_y(),
    ;

    fn xzwy(&self) -> (r: Vec4<T>)
        ensures
            r.x == self.spec_x() && r.y == self.spec_z() && r.z == self.spec_w() && r.w == self.spec_y(),
    ;

    fn zxwy(&self) -> (r: Vec4<T>)
        ensures
            r.x == self.spec_z() && r.y == self.spec_x() && r.z == self.spec_w() && r.w == self.spec_y(),
    ;

    fn yxwz(&self) -> (r: Vec4<T>)
        ensures
            r.x == self.spec_y() && r.y == self.spec_x() && r.z == self.spec_w() && r.w == self.spec_z(),
    ;

    fn xywz(&self) -> (r: Vec4<T>)
        ensures
            r.x == self.spec_x() && r.y == self.spec_y() && r.z == self.spec_w() && r.w == self.spec_z(),
    ;

    fn wyxz(&self) -> (r: Vec4<T>)
        ensures
            r.x == self.spec_w() && r.y == self.spec_y() && r.z == self.spec_x() && r.w == self.spec_z(),
    ;

    fn ywxz(&self) -> (r: Vec4<T>)
        ensures
            r.x == self.spec_y() && r.y == self.spec_w() && r.z == self.spec_x() && r.w == self.spec_z(),
    ;

    fn xwyz(&self) -> (r: Vec4<T>)
        ensures
            r.x == self.spec_x() && r.y == self.spec_w() && r.z == self.spec_y() && r.w == self.spec_z(),
    ;

    fn wxyz(&self) -> (r: Vec4<T>)
        ensures
            r.x == self.spec_w() && r.y == self.spec_x() && r.z == self.spec_y() && r.w == self.spec_z(),
    ;
}

impl<T: PartialOrd + Copy> TwoDimVec<T> for Vec2<T> {
    open spec fn spec_x(&self) -> T {
        self.x
    }

    fn x(&self) -> (r: &T) {
        &self.x
    }

    open spec fn spec_y(&self) -> T {
        self.y
    }

    fn y(&self) -> (r: &T) {
        &self.y
    }

    fn xy(&self) -> (r: Vec2<T>) {
        Vec2 { x: self.x, y: self.y }
    }

    fn yx(&self) -> (r: Vec2<T>) {
        Vec2 { x: self.y, y: self.x }
    }
}

impl<T: PartialOrd + Copy> TwoDimVec<T> for Vec3<T> {
    open spec fn spec_x(&self) -> T {
        self.x
    }

    fn x(&self) -> (r: &T) {
        &self.x
    }

    open spec fn spec_y(&self) -> T {
        self.y
    }

    fn y(&self) -> (r: &T) {
        &self.y
    }

    fn xy(&self) -> (r: Vec2<T>) {
        Vec2 { x: self.x, y: self.y }
    }

    fn yx(&self) -> (r: Vec2<T>) {
        Vec2 { x: self.y, y: self.x }
    }
}

impl<T: PartialOrd + Copy> ThreeDimVec<T> for Vec3<T> {
    open spec fn spec_z(&self) -> T {
        self.z
    }

    fn z(&self) -> (r: &T) {
        &self.z
    }

    fn xyz(&self) -> (r: Vec3<T>) {
        Vec3 { x: self.x, y: self.y, z: self.z }
    }

    fn yxz(&self) -> (r: Vec3<T>) {
        Vec3 { x: self.y, y: self.x, z: self.z }
    }

    fn zxy(&self) -> (r: Vec3<T>) {
        Vec3 { x: self.z, y: self.x, z: self.y }
    }

    fn xzy(&self) -> (r: Vec3<T>) {
        Vec3 { x: self.x, y: self.z, z: self.y }
    }

    fn yzx(&self) -> (r: Vec3<T>) {
        Vec3 { x: self.y, y: self.z, z: self.x }
    }

    fn zyx(&self) -> (r: Vec3<T>) {
        Vec3 { x: self.z, y: self.y, z: self.x }
    }
}

impl<T: PartialOrd + Copy> TwoDimVec<T> for Vec4<T> {
    open spec fn spec_x(&self) -> T {
        self.x
    }

    fn x(&self) -> (r: &T) {
        &self.x
    }

    open spec fn spec_y(&self) -> T {
        self.y
    }

    fn y(&self) -> (r: &T) {
        &self.y
    }

    fn xy(&self) -> (r: Vec2<T>) {
        Vec2 { x: self.x, y: self.y }
    }

    fn yx(&self) -> (r: Vec2<T>) {
        Vec2 { x: self.y, y: self.x }
    }
}

impl<T: PartialOrd + Copy> ThreeDimVec<T> for Vec4<T> {
    open spec fn spec_z(&self) -> T {
        self.z
    }

    fn z(&self) -> (r: &T) {
        &self.z
    }

    fn xyz(&self) -> (r: Vec3<T>) {
        Vec3 { x: self.x, y: self.y, z: self.z }
    }

    fn yxz(&self) -> (r: Vec3<T>) {
        Vec3 { x: self.y, y: self.x, z: self.z }
    }

    fn zxy(&self) -> (r: Vec3<T>) {
        Vec3 { x: self.z, y: self.x, z: self.y }
    }

    fn xzy(&self) -> (r: Vec3<T>) {
        Vec3 { x: self.x, y: self.z, z: self.y }
    }

    fn yzx(&self) -> (r: Vec3<T>) {
        Vec3 { x: self.y, y: self.z, z: self.x }
    }

    fn zyx(&self) -> (r: Vec3<T>) {
        Vec3 { x: self.z, y: self.y, z: self.x }
    }
}

impl<T: PartialOrd + Copy> FourDimVec<T> for Vec4<T> {
    open spec fn spec_w(&self) -> T {
        self.w
    }

    fn w(&self) -> (r: &T) {
        &self.w
    }

    fn xyzw(&self) -> (r: Vec4<T>) {
        Vec4 { x: self.x, y: self.y, z: self.z, w: self.w }
    }

    fn yxzw(&self) -> (r: Vec4<T>) {
        Vec4 { x: self.y, y: self.x, z: self.z, w: self.w }
    }

    fn zxyw(&self) -> (r: Vec4<T>) {
        Vec4 { x: self.z, y: self.x, z: self.y, w: self.w }
    }

    fn xzyw(&self) -> (r: Vec4<T>) {
        Vec4 { x: self.x, y: self.z, z: self.y, w: self.w }
    }

    fn yzxw(&self) -> (r: Vec4<T>) {
        Vec4 { x: self.y, y: self.z, z: self.x, w: self.w }
    }

    fn zyxw(&self) -> (r: Vec4<T>) {
        Vec4 { x: self.z, y: self.y, z: self.x, w: self.w }
    }

    fn zywx(&self) -> (r: Vec4<T>) {
        Vec4 { x: self.z, y: self.y, z: self.w, w: self.x }
    }

    fn yzwx(&self) -> (r: Vec4<T>) {
        Vec4 { x: self.y, y: self.z, z: self.w, w: self.x }
    }

    fn wzyx(&self) -> (r: Vec4<T>) {
        Vec4 { x: self.w, y: self.z, z: self.y, w: self.x }
    }

    fn zwyx(&self) -> (r: Vec4<T>) {
        Vec4 { x: self.z, y: self.w, z: self.y, w: self.x }
    }

    fn ywzx(&self) -> (r: Vec4<T>) {
        Vec4 { x: self.y, y: self.w, z: self.z, w: self.x }
    }

    fn wyzx(&self) -> (r: Vec4<T>) {
        Vec4 { x: self.w, y: self.y, z: self.z, w: self.x }
    }

    fn wxzy(&self) -> (r: Vec4<T>) {
        Vec4 { x: self.w, y: self.x, z: self.z, w: self.y }
    }

    fn xwzy(&self) -> (r: Vec4<T>) {
        Vec4 { x: self.x, y: self.w, z: self.z, w: self.y }
    }

    fn zwxy(&self) -> (r: Vec4<T>) {
        Vec4 { x: self.z, y: self.w, z: self.x, w: self.y }
    }

    fn wzxy(&self) -> (r: Vec4<T>) {
        Vec4 { x: self.w, y: self.z, z: self.x, w: self.y }
    }

    fn xzwy(&self) -> (r: Vec4<T>) {
        Vec4 { x: self.x, y: self.z, z: self.w, w: self.y }
    }

    fn zxwy(&self) -> (r: Vec4<T>) {
        Vec4 { x: self.z, y: self.x, z: self.w, w: self.y }
    }

    fn yxwz(&self) -> (r: Vec4<T>) {
        Vec4 { x: self.y, y: self.x, z: self.w, w: self.z }
    }

    fn xywz(&self) -> (r: Vec4<T>) {
        Vec4 { x: self.x, y: self.y, z: self.w, w: self.z }
    }

    fn wyxz(&self) -> (r: Vec4<T>) {
        Vec4 { x: self.w, y: self.y, z: self.x, w: self.z }
    }

    fn ywxz(&self) -> (r: Vec4<T>) {
        Vec4 { x: self.y, y: self.w, z: self.x, w: self.z }
    }

    fn xwyz(&self) -> (r: Vec4<T>) {
        Vec4 { x: self.x, y: self.w, z: self.y, w: self.z }
    }

    fn wxyz(&self) -> (r: Vec4<T>) {
        Vec4 { x: self.w, y: self.x, z: self.y, w: self.z }
    }
}

} // verus!
