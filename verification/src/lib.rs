use vstd::prelude::*;

pub mod lab_parser;
pub mod lab_case;
pub mod tiny_string;
pub mod bitmap;
pub mod panel_file;
pub mod panels;
pub mod quiz;
pub mod incidence;
pub mod topology;
pub mod dbscan;
pub mod image_analysis;
pub mod input;
pub mod devices;
pub mod ui;
pub mod debug_tools;
pub mod text_box;
pub mod compression;

verus! {

/// The error text of the Windows dynamic-library loader, which has no error details to give.
pub fn get_error() -> (s: String)
    ensures
        s@ == "Windows version has not been implemented"@,
{
    String::from_str("Windows version has not been implemented")
}

} // verus!
