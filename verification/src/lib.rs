//! Reading, calibrating and analysing Bruker Nanoscope AFM images.

pub mod text;
pub mod reading;
pub mod rounding;
pub mod float;
pub mod root;
pub mod binary;
pub mod order;
pub mod scaling;
pub mod reals;
pub mod bignat;
pub mod decimal;
pub mod fixed;
pub mod places;
pub mod fields;
pub mod header;
pub mod channels;
pub mod scale;
pub mod samples;
pub mod poly;
pub mod grid;
pub mod smooth;
pub mod filter;
pub mod rolling;
pub mod opening;
pub mod profile;
pub mod colormap;
pub mod appearance;
pub mod nearness;
pub mod shades;
pub mod name_filter;
pub mod matching;
pub mod calibration;
pub mod folding;
pub mod table;
pub mod spm;
pub mod drawn_line;
pub mod fitting;
pub mod solving;
pub mod least_squares;
pub mod blurring;
pub mod decoding;
pub mod quantities;
pub mod correction;
pub mod raw;
pub mod mesh;
pub mod surface;
pub mod background;
pub mod canvas;
pub mod scalebar;
pub mod measures;
pub mod facets;
pub mod filtering;
pub mod weights;
pub mod touching;
pub mod plot;
pub mod drawing;
pub mod written;
pub mod camera;
pub mod pointer;
pub mod views;
pub mod glow;
pub mod inking;
pub mod files;
pub mod viewer;
pub mod controls;
pub mod linearity;
