//! The toolpath sink: an append-only record of the directives a slicing run
//! emits, in the order it emits them. Turning directives into text is left to
//! whoever consumes the record.
use vstd::prelude::*;

verus! {

/// One instruction handed to the sink.
#[derive(Clone, Debug, PartialEq, Eq)]
pub enum Directive {
    /// The preamble that opens a file.
    Header,
    /// A line of text passed through as it is.
    Raw(String),
    /// Home all axes.
    HomeAll,
    /// Start layer `n` at absolute height `z`, feeding along `feed_axis` at `feed_rate`.
    LayerChange { n: usize, z: i64, feed_axis: char, feed_rate: i64 },
    /// Move to `(x, y)` at height `z` while extruding.
    Perimeter { x: i64, y: i64, z: i64, s: i64, extrusion: i64 },
}

/// What a directive says, with text as a sequence of characters.
pub enum DirectiveView {
    Header,
    Raw(Seq<char>),
    HomeAll,
    LayerChange { n: usize, z: i64, feed_axis: char, feed_rate: i64 },
    Perimeter { x: i64, y: i64, z: i64, s: i64, extrusion: i64 },
}

impl View for Directive {
    type V = DirectiveView;

    open spec fn view(&self) -> DirectiveView {
        match *self {
            Directive::Header => DirectiveView::Header,
            Directive::Raw(text) => DirectiveView::Raw(text@),
            Directive::HomeAll => DirectiveView::HomeAll,
            Directive::LayerChange { n, z, feed_axis, feed_rate } => DirectiveView::LayerChange {
                n,
                z,
                feed_axis,
                feed_rate,
            },
            Directive::Perimeter { x, y, z, s, extrusion } => DirectiveView::Perimeter {
                x,
                y,
                z,
                s,
                extrusion,
            },
        }
    }
}

/// Collects the directives of one output file.
#[derive(Clone, Debug)]
pub struct GcodeWriter {
    file_name: String,
    directives: Vec<Directive>,
}

impl View for GcodeWriter {
    type V = Seq<DirectiveView>;

    closed spec fn view(&self) -> Seq<DirectiveView> {
        Seq::new(self.directives@.len(), |i: int| self.directives@[i]@)
    }
}

impl GcodeWriter {
    /// The name of the file the directives are meant for.
    pub closed spec fn target(&self) -> Seq<char> {
        self.file_name@
    }

    /// An empty record for the file `gcode_file`.
    pub fn new(gcode_file: &str) -> (w: Self)
        ensures
            w@ == Seq::<DirectiveView>::empty(),
            w.target() == gcode_file@,
    {
        let w = GcodeWriter { file_name: gcode_file.to_owned(), directives: Vec::new() };
        assert(w@ =~= Seq::<DirectiveView>::empty());
        w
    }

    /// The name of the file the directives are meant for.
    pub fn file_name(&self) -> (r: &String)
        ensures
            r@ == self.target(),
    {
        &self.file_name
    }

    /// The directives recorded so far, oldest first.
    pub fn directives(&self) -> (r: &Vec<Directive>)
        ensures
            r@.len() == self@.len(),
            forall|i: int| 0 <= i < r@.len() ==> (#[trigger] r@[i])@ == self@[i],
    {
        &self.directives
    }

    fn record(&mut self, d: Directive)
        ensures
            final(self)@ == old(self)@.push(d@),
            final(self).target() == old(self).target(),
    {
        self.directives.push(d);
        assert(self@ =~= old(self)@.push(d@));
    }

    /// Records a line of text.
    pub fn write_gcode(&mut self, gcode: &str)
        ensures
            final(self)@ == old(self)@.push(DirectiveView::Raw(gcode@)),
            final(self).target() == old(self).target(),
    {
        self.record(Directive::Raw(gcode.to_owned()));
    }

    /// Records the preamble.
    pub fn write_header(&mut self)
        ensures
            final(self)@ == old(self)@.push(DirectiveView::Header),
            final(self).target() == old(self).target(),
    {
        self.record(Directive::Header);
    }

    /// Records the homing of all axes.
    pub fn write_home_all(&mut self)
        ensures
            final(self)@ == old(self)@.push(DirectiveView::HomeAll),
            final(self).target() == old(self).target(),
    {
        self.record(Directive::HomeAll);
    }

    /// Records the start of layer `n` at absolute height `z`.
    pub fn write_layer_change(&mut self, n: usize, z: i64, feed_axis: char, feed_rate: i64)
        ensures
            final(self)@ == old(self)@.push(
                DirectiveView::LayerChange { n, z, feed_axis, feed_rate },
            ),
            final(self).target() == old(self).target(),
    {
        self.record(Directive::LayerChange { n, z, feed_axis, feed_rate });
    }

    /// Records an extruding move to `(x, y)` at height `z`.
    pub fn write_perimeter(&mut self, x: i64, y: i64, z: i64, s: i64, extrusion: i64)
        ensures
            final(self)@ == old(self)@.push(DirectiveView::Perimeter { x, y, z, s, extrusion }),
            final(self).target() == old(self).target(),
    {
        self.record(Directive::Perimeter { x, y, z, s, extrusion });
    }
}

} // verus!
