//! Containers of the image analysis: pixels and the histograms taken of an image.
use vstd::prelude::*;
use std::collections::HashMap;

verus! {

/// A pixel as stored in a bitmap: blue, green, red, alpha.
#[derive(Clone, Copy, Debug, PartialEq, Eq, Structural)]
pub struct RGBA {
    pub b: u8,
    pub g: u8,
    pub r: u8,
    pub a: u8,
}

/// The histograms taken of an image, with the background removed: over its columns
/// (vertical) and rows (horizontal), in all and for each of two colour channels, with the
/// counts of each colour per column and row.
pub struct ManyHist {
    pub vertical_histogram_rm_bkg: Vec<usize>,
    pub horizontal_histogram_rm_bkg: Vec<usize>,
    pub vertical_histogram_rm_bkg_ch1: Vec<usize>,
    pub horizontal_histogram_rm_bkg_ch1: Vec<usize>,
    pub arr_horizontal_histogram_rm_bkg_ch1: Vec<Vec<usize>>,
    pub vertical_histogram_rm_bkg_ch2: Vec<usize>,
    pub arr_horizontal_histogram_rm_bkg_ch2: Vec<Vec<usize>>,
    pub horizontal_histogram_rm_bkg_ch2: Vec<usize>,
    pub counts_vertical_color_vec_ch1: Vec<HashMap<usize, usize>>,
    pub counts_horizontal_color_vec_ch1: Vec<Vec<HashMap<usize, usize>>>,
    pub counts_vertical_color_vec_ch2: Vec<HashMap<usize, usize>>,
    pub counts_horizontal_color_vec_ch2: Vec<Vec<HashMap<usize, usize>>>,
}

impl ManyHist {
    /// No histogram holds anything yet.
    pub open spec fn is_empty(&self) -> bool {
        &&& self.vertical_histogram_rm_bkg@.len() == 0
        &&& self.horizontal_histogram_rm_bkg@.len() == 0
        &&& self.vertical_histogram_rm_bkg_ch1@.len() == 0
        &&& self.horizontal_histogram_rm_bkg_ch1@.len() == 0
        &&& self.arr_horizontal_histogram_rm_bkg_ch1@.len() == 0
        &&& self.vertical_histogram_rm_bkg_ch2@.len() == 0
        &&& self.arr_horizontal_histogram_rm_bkg_ch2@.len() == 0
        &&& self.horizontal_histogram_rm_bkg_ch2@.len() == 0
        &&& self.counts_vertical_color_vec_ch1@.len() == 0
        &&& self.counts_horizontal_color_vec_ch1@.len() == 0
        &&& self.counts_vertical_color_vec_ch2@.len() == 0
        &&& self.counts_horizontal_color_vec_ch2@.len() == 0
    }

    /// Histograms with nothing in them.
    pub fn new() -> (h: ManyHist)
        ensures
            h.is_empty(),
    {
        ManyHist {
            vertical_histogram_rm_bkg: Vec::new(),
            horizontal_histogram_rm_bkg: Vec::new(),
            vertical_histogram_rm_bkg_ch1: Vec::new(),
            horizontal_histogram_rm_bkg_ch1: Vec::new(),
            arr_horizontal_histogram_rm_bkg_ch1: Vec::new(),
            vertical_histogram_rm_bkg_ch2: Vec::new(),
            arr_horizontal_histogram_rm_bkg_ch2: Vec::new(),
            horizontal_histogram_rm_bkg_ch2: Vec::new(),
            counts_vertical_color_vec_ch1: Vec::new(),
            counts_horizontal_color_vec_ch1: Vec::new(),
            counts_vertical_color_vec_ch2: Vec::new(),
            counts_horizontal_color_vec_ch2: Vec::new(),
        }
    }
}

} // verus!
