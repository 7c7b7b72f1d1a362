//! The named inputs of a run.

use vstd::prelude::*;

verus! {

/// The file that a letter stands for, if it stands for one.
pub open spec fn input_name_of(letter: char) -> Option<Seq<char>> {
    if letter == 'a' {
        Some("a_example.txt"@)
    } else if letter == 'b' {
        Some("b_lovely_landscapes.txt"@)
    } else if letter == 'c' {
        Some("c_memorable_moments.txt"@)
    } else if letter == 'd' {
        Some("d_pet_pictures.txt"@)
    } else if letter == 'e' {
        Some("e_shiny_selfies.txt"@)
    } else {
        None
    }
}

/// Gives the name of the input file that a letter stands for.
pub fn input_file_name(letter: char) -> (name: Option<&'static str>)
    ensures
        match name {
            Some(file) => input_name_of(letter) == Some(file@),
            None => input_name_of(letter) is None,
        },
{
    if letter == 'a' {
        Some("a_example.txt")
    } else if letter == 'b' {
        Some("b_lovely_landscapes.txt")
    } else if letter == 'c' {
        Some("c_memorable_moments.txt")
    } else if letter == 'd' {
        Some("d_pet_pictures.txt")
    } else if letter == 'e' {
        Some("e_shiny_selfies.txt")
    } else {
        None
    }
}

} // verus!
