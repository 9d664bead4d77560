//! A trait no other crate can implement, so that the list traits of this
//! crate are implemented only by the types it checks.

use vstd::prelude::*;

verus! {

/// Implemented by the list types the crate accepts, and by no others.
pub trait Sealed {

}

impl<'a, const N: usize> Sealed for [&'a str; N] {

}

impl<const N: usize> Sealed for [String; N] {

}

impl<'a, 'b> Sealed for &'a [&'b str] {

}

impl<'a> Sealed for &'a [String] {

}

impl<'a> Sealed for Vec<&'a str> {

}

impl Sealed for Vec<String> {

}

impl<'a, T: Sealed> Sealed for &'a T {

}

impl<const N: usize> Sealed for [crate::table::Alignment; N] {

}

impl Sealed for Vec<crate::table::Alignment> {

}

impl<'a> Sealed for &'a [crate::table::Alignment] {

}

} // verus!
