//! What a screen over the library has to remember between two inputs.

use crate::input::{csv_records, parse_csv, rows_value, InputData};
use crate::row::RowParseError;
use vstd::prelude::*;

verus! {

/// What the user did.
#[derive(Debug)]
pub enum Msg {
    /// The text of the export was replaced by this one.
    UpdateCsv(String),
    /// The multi-pack switch was flipped.
    ToggleMultipack,
}

/// The state of the screen: the rows of the export that was read last, or
/// why it could not be read, never both; and the multi-pack switch.
#[derive(Debug)]
pub struct Gui {
    pub input_data: Option<InputData>,
    pub multipack: bool,
    pub error: Option<RowParseError>,
}

impl Gui {
    /// The state before any input: nothing read, nothing wrong, the switch
    /// on.
    pub fn create() -> (gui: Gui)
        ensures
            gui.input_data is None,
            gui.error is None,
            gui.multipack,
    {
        Gui { input_data: None, multipack: true, error: None }
    }

    /// Takes in what the user did, and says whether the screen is to be
    /// drawn again, which it always is. A new text is read: its rows
    /// replace what was there, or, if it cannot be read, the error does,
    /// and no rows of an earlier text stay.
    pub fn update(&mut self, msg: Msg) -> (render: bool)
        ensures
            render,
            match msg {
                Msg::UpdateCsv(data) => {
                    &&& final(self).multipack == old(self).multipack
                    &&& match rows_value(csv_records(data@)) {
                        Ok(rows) => {
                            &&& final(self).error is None
                            &&& final(self).input_data matches Some(input)
                            &&& input.data.deep_view() == rows
                        },
                        Err(fault) => {
                            &&& final(self).input_data is None
                            &&& final(self).error matches Some(e)
                            &&& e@ == fault
                        },
                    }
                },
                Msg::ToggleMultipack => {
                    &&& final(self).multipack == !old(self).multipack
                    &&& final(self).input_data == old(self).input_data
                    &&& final(self).error == old(self).error
                },
            },
    {
        match msg {
            Msg::UpdateCsv(data) => {
                match parse_csv(data.as_str()) {
                    Ok(input) => {
                        self.input_data = Some(input);
                        self.error = None;
                    },
                    Err(e) => {
                        self.error = Some(e);
                        self.input_data = None;
                    },
                }
            },
            Msg::ToggleMultipack => {
                self.multipack = !self.multipack;
            },
        }
        true
    }
}

} // verus!
