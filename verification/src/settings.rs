//! Render configuration, refused at construction when it could not produce a
//! picture.

use vstd::prelude::*;

verus! {

/// Why a configuration was refused.
#[derive(Clone, Copy, Debug, PartialEq, Eq, Structural)]
pub enum SettingsError {
    /// No sample would be drawn for any pixel.
    NoSamples,
    /// No bounce would be followed for any sample.
    NoDepth,
}

/// The mathematical content of a [`RenderSettings`].
pub struct SettingsView {
    pub width: nat,
    pub height: nat,
    pub samples_per_pixel: nat,
    pub max_depth: nat,
}

/// Image size, number of samples averaged per pixel and bounce budget per
/// sample. A value of this type always has at least one sample and at least
/// one bounce.
#[derive(Clone, Copy, Debug)]
pub struct RenderSettings {
    width: u32,
    height: u32,
    samples_per_pixel: u32,
    max_depth: u32,
}

impl View for RenderSettings {
    type V = SettingsView;

    closed spec fn view(&self) -> SettingsView {
        SettingsView {
            width: self.width as nat,
            height: self.height as nat,
            samples_per_pixel: self.samples_per_pixel as nat,
            max_depth: self.max_depth as nat,
        }
    }
}

impl RenderSettings {
    #[verifier::type_invariant]
    spec fn well_formed(self) -> bool {
        self.samples_per_pixel > 0 && self.max_depth > 0
    }

    /// Accepts a configuration unless it asks for zero samples per pixel or
    /// for a bounce budget of zero; a zero sample count is reported first.
    pub fn new(width: u32, height: u32, samples_per_pixel: u32, max_depth: u32) -> (r: Result<
        RenderSettings,
        SettingsError,
    >)
        ensures
            match r {
                Ok(settings) => samples_per_pixel > 0 && max_depth > 0 && settings@ == (
                SettingsView {
                    width: width as nat,
                    height: height as nat,
                    samples_per_pixel: samples_per_pixel as nat,
                    max_depth: max_depth as nat,
                }),
                Err(SettingsError::NoSamples) => samples_per_pixel == 0,
                Err(SettingsError::NoDepth) => samples_per_pixel > 0 && max_depth == 0,
            },
    {
        if samples_per_pixel == 0 {
            Err(SettingsError::NoSamples)
        } else if max_depth == 0 {
            Err(SettingsError::NoDepth)
        } else {
            Ok(RenderSettings { width, height, samples_per_pixel, max_depth })
        }
    }

    /// Number of pixel columns.
    pub fn width(&self) -> (w: u32)
        ensures
            w == self@.width,
    {
        self.width
    }

    /// Number of pixel rows.
    pub fn height(&self) -> (h: u32)
        ensures
            h == self@.height,
    {
        self.height
    }

    /// Number of samples averaged into one pixel; never zero.
    pub fn samples_per_pixel(&self) -> (n: u32)
        ensures
            n == self@.samples_per_pixel,
            n > 0,
    {
        proof {
            use_type_invariant(self);
        }
        self.samples_per_pixel
    }

    /// Number of bounces a sample may follow; never zero.
    pub fn max_depth(&self) -> (d: u32)
        ensures
            d == self@.max_depth,
            d > 0,
    {
        proof {
            use_type_invariant(self);
        }
        self.max_depth
    }

    /// The number of steps from the first pixel of a row to the last, by
    /// which a column is scaled to the width of the image plane; one for a
    /// picture a single column wide or less.
    pub fn steps_across(&self) -> (steps: u32)
        ensures
            steps == (if self@.width > 1 {
                self@.width - 1
            } else {
                1
            }),
    {
        if self.width > 1 {
            self.width - 1
        } else {
            1
        }
    }

    /// The number of steps from the bottom row to the top row, by which a
    /// row is scaled to the height of the image plane; one for a picture a
    /// single row high or less.
    pub fn steps_up(&self) -> (steps: u32)
        ensures
            steps == (if self@.height > 1 {
                self@.height - 1
            } else {
                1
            }),
    {
        if self.height > 1 {
            self.height - 1
        } else {
            1
        }
    }

    /// Number of pixels in the image.
    pub fn pixel_count(&self) -> (n: u64)
        ensures
            n == self@.width * self@.height,
    {
        let w: u64 = self.width as u64;
        let h: u64 = self.height as u64;
        assert(w * h <= 0xffff_ffff * 0xffff_ffff) by (nonlinear_arith)
            requires
                w <= 0xffff_ffff,
                h <= 0xffff_ffff,
        ;
        w * h
    }
}

} // verus!
