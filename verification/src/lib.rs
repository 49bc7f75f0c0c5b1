//! Card detection on luma frames: edge strength, silhouette tracing, Hough
//! line voting, line clustering, corner resolution, projective rectification,
//! fingerprint matching and symbol template scoring.
//!
//! Every stage works on integers. Quantities that are fractional by nature
//! (averaged line parameters, directions, scores) are held as exact ratios or
//! as fixed-point values, and the contracts say which.
use vstd::prelude::*;

pub mod arith;
pub mod border;
pub mod catalog;
pub mod corners;
pub mod filter;
pub mod fingerprint;
pub mod grid;
pub mod hough;
pub mod lines;
pub mod palette;
pub mod perspective;
pub mod raster;
pub mod set_symbol_detection;
pub mod sobel;
pub mod sums;
pub mod trig;
pub mod viewer;

pub use crate::catalog::{calculate_dataset_entry, load_or_build_dataset, CatalogError, DatasetEntry};
pub use crate::palette::colors;
use crate::corners::corners_of;
use crate::fingerprint::{distance, is_ranking, promoted, ranking_len, text_contains, Fingerprint};
use crate::hough::RHOS;
use crate::lines::{clusters, LineCandidate, CELLS};
use crate::perspective::{homography_of, in_general_position, resampled, Homography};
use crate::raster::{luma_of, Image};
use crate::set_symbol_detection::{is_placement, qualifies, Threshold, MAX_TEMPLATE_PIXELS};
use crate::trig::ANGLES;

verus! {

/// A read-only two-dimensional view over intensity samples.
///
/// The stages of the pipeline depend on this capability alone and never on
/// the physical layout behind it.
pub trait Luma<T> {
    /// What has to hold of the value for its samples to be readable.
    spec fn inv(&self) -> bool;

    /// The number of columns.
    spec fn cols(&self) -> u32;

    /// The number of rows.
    spec fn rows(&self) -> u32;

    /// The sample at column `x` of row `y`.
    spec fn sample(&self, x: u32, y: u32) -> T;

    fn get(&self, x: u32, y: u32) -> (v: T)
        requires
            self.inv(),
            x < self.cols(),
            y < self.rows(),
        ensures
            v == self.sample(x, y),
    ;

    fn width(&self) -> (w: u32)
        ensures
            w == self.cols(),
    ;

    fn height(&self) -> (h: u32)
        ensures
            h == self.rows(),
    ;
}

/// Packed interleaved layout: two values per pixel, the sample first.
pub struct YUYV442<'a, T> {
    pub data: &'a [T],
    pub width: u32,
    pub height: u32,
}

impl<'a, T: Copy> Luma<T> for YUYV442<'a, T> {
    open spec fn inv(&self) -> bool {
        self.data@.len() >= 2 * (self.width * self.height)
    }

    open spec fn cols(&self) -> u32 {
        self.width
    }

    open spec fn rows(&self) -> u32 {
        self.height
    }

    open spec fn sample(&self, x: u32, y: u32) -> T {
        self.data@[2 * grid::cell(x as int, y as int, self.width as int)]
    }

    fn get(&self, x: u32, y: u32) -> (v: T) {
        proof {
            grid::lemma_cell_in_grid(x as int, y as int, self.width as int, self.height as int);
        }
        let i: usize = grid::index(x, y, self.width, self.height, self.data.len() / 2);
        self.data[2 * i]
    }

    fn width(&self) -> (w: u32) {
        self.width
    }

    fn height(&self) -> (h: u32) {
        self.height
    }
}

/// Planar layout: one value per pixel, row after row.
pub struct LumaVec<'a, T> {
    pub data: &'a [T],
    pub width: u32,
    pub height: u32,
}

impl<'a, T: Copy> Luma<T> for LumaVec<'a, T> {
    open spec fn inv(&self) -> bool {
        self.data@.len() >= self.width * self.height
    }

    open spec fn cols(&self) -> u32 {
        self.width
    }

    open spec fn rows(&self) -> u32 {
        self.height
    }

    open spec fn sample(&self, x: u32, y: u32) -> T {
        self.data@[grid::cell(x as int, y as int, self.width as int)]
    }

    fn get(&self, x: u32, y: u32) -> (v: T) {
        let i: usize = grid::index(x, y, self.width, self.height, self.data.len());
        self.data[i]
    }

    fn width(&self) -> (w: u32) {
        self.width
    }

    fn height(&self) -> (h: u32) {
        self.height
    }
}

/// The width of the rectified card, in pixels.
pub const CARD_WIDTH: u32 = 734;

/// The height of the rectified card, in pixels.
pub const CARD_HEIGHT: u32 = 1024;

/// The frame around the detected corners that rectification cuts away.
pub const CARD_MARGIN: u32 = 5;

/// The number of catalog entries that a detection reports.
pub const MATCHES: usize = 3;

/// `std::time::Instant`, a moment on the clock of the machine. Nothing of a
/// moment is known to the proofs.
#[verifier::external_type_specification]
#[verifier::external_body]
pub struct ExInstant(std::time::Instant);

/// Calls `std::time::Instant::now`. Nothing is known of the moment.
#[verifier::external_body]
fn now() -> std::time::Instant {
    std::time::Instant::now()
}

/// Calls `std::time::Instant::elapsed`. Nothing is known of the time that
/// has passed.
#[verifier::external_body]
fn elapsed(since: &std::time::Instant) -> std::time::Duration {
    since.elapsed()
}

/// Calls `std::time::Duration::default`, for a stage that did not run.
#[verifier::external_body]
fn no_time() -> std::time::Duration {
    std::time::Duration::default()
}

/// How long each stage of a detection took.
pub struct ProcessingTimes {
    pub sobel: std::time::Duration,
    pub border: std::time::Duration,
    pub hough: std::time::Duration,
    pub corners: std::time::Duration,
    pub perspective: std::time::Duration,
    pub phash: std::time::Duration,
}

/// One run of the pipeline: the frame to look at and the buffers to work in.
pub struct ProcessingPipeline<'a> {
    pub frame: &'a [u8],
    pub buffers: &'a mut ProcessingBuffers,
}

/// The buffers of the pipeline, kept from frame to frame.
pub struct ProcessingBuffers {
    pub width: u32,
    pub height: u32,
    pub sobel: Vec<u8>,
    pub border: Vec<u32>,
    pub hough: Vec<u32>,
    pub lines: Vec<LineCandidate>,
    pub corners: Vec<(u32, u32)>,
    pub source_image: Image,
    pub perspective_image: Image,
}

impl ProcessingBuffers {
    /// The buffers fit a frame of `width × height` pixels.
    pub open spec fn wf(&self) -> bool {
        &&& self.width * self.height <= u32::MAX
        &&& self.sobel.len() == self.width * self.height
        &&& self.border.len() == self.width * self.height
        &&& self.hough.len() == ANGLES * RHOS
        &&& self.source_image.wf()
        &&& self.source_image.width == self.width
        &&& self.source_image.height == self.height
    }

    /// Buffers for frames of `width × height` pixels, all cleared.
    pub fn new(width: u32, height: u32) -> (buffers: ProcessingBuffers)
        requires
            width * height <= u32::MAX,
            4 * (width * height) <= usize::MAX,
        ensures
            buffers.wf(),
            buffers.width == width,
            buffers.height == height,
            forall|i: int| 0 <= i < buffers.sobel.len() ==> buffers.sobel[i] == 0,
            forall|i: int| 0 <= i < buffers.border.len() ==> buffers.border[i] == 0,
            forall|i: int| 0 <= i < buffers.hough.len() ==> buffers.hough[i] == 0,
            buffers.lines.len() == 0,
            buffers.corners.len() == 0,
            forall|i: int| 0 <= i < buffers.source_image.data.len() ==> buffers.source_image.data[i] == 0,
            buffers.perspective_image.wf(),
            buffers.perspective_image.width == 0,
            buffers.perspective_image.height == 0,
    {
        assert(width * height >= 0) by (nonlinear_arith)
            requires
                width >= 0,
                height >= 0,
        ;
        let area: usize = width as usize * height as usize;
        let mut sobel: Vec<u8> = Vec::new();
        let mut border: Vec<u32> = Vec::new();
        let mut i: usize = 0;
        while i < area
            invariant
                i <= area,
                sobel.len() == i,
                border.len() == i,
                forall|j: int| 0 <= j < i ==> sobel[j] == 0 && border[j] == 0,
            decreases area - i,
        {
            sobel.push(0);
            border.push(0);
            i = i + 1;
        }
        let mut hough: Vec<u32> = Vec::new();
        let mut k: usize = 0;
        while k < ANGLES * RHOS
            invariant
                k <= ANGLES * RHOS,
                hough.len() == k,
                forall|j: int| 0 <= j < k ==> hough[j] == 0,
            decreases ANGLES * RHOS - k,
        {
            hough.push(0);
            k = k + 1;
        }
        ProcessingBuffers {
            width,
            height,
            sobel,
            border,
            hough,
            lines: Vec::new(),
            corners: Vec::new(),
            source_image: Image::new(width, height),
            perspective_image: Image::new(0, 0),
        }
    }
}

/// A symbol to look for: its name, its acceptance threshold and its picture,
/// whose alpha channel marks the pixels that take part in scoring.
pub struct Template<'a> {
    pub label: &'a str,
    pub threshold: Threshold,
    pub image: Image,
}

impl<'a> Template<'a> {
    /// The picture is a well-formed image of a size that can be scored.
    pub open spec fn wf(&self) -> bool {
        &&& self.image.wf()
        &&& self.image.width * self.image.height <= MAX_TEMPLATE_PIXELS
    }
}

/// The number of symbols that are looked for.
pub const TEMPLATES: usize = 9;

/// The label of the `i`-th symbol.
pub open spec fn label_of(i: int) -> &'static str {
    if i == 0 {
        "cpa"
    } else if i == 1 {
        "ssh"
    } else if i == 2 {
        "exp"
    } else if i == 3 {
        "gen"
    } else if i == 4 {
        "pls"
    } else if i == 5 {
        "lc"
    } else if i == 6 {
        "promo"
    } else if i == 7 {
        "bst"
    } else {
        "sum"
    }
}

/// The acceptance threshold of the `i`-th symbol.
pub open spec fn threshold_of(i: int) -> Threshold {
    if i == 0 || i == 6 || i == 7 {
        Threshold { num: 20, den: 100 }
    } else if i == 3 {
        Threshold { num: 18, den: 100 }
    } else if i == 4 {
        Threshold { num: 15, den: 100 }
    } else {
        Threshold { num: 10, den: 100 }
    }
}

/// The label and the acceptance threshold of the `i`-th symbol.
pub fn symbol(i: usize) -> (s: (&'static str, Threshold))
    requires
        i < TEMPLATES,
    ensures
        s.0 == label_of(i as int),
        s.1 == threshold_of(i as int),
        s.1.wf(),
{
    if i == 0 {
        ("cpa", Threshold { num: 20, den: 100 })
    } else if i == 1 {
        ("ssh", Threshold { num: 10, den: 100 })
    } else if i == 2 {
        ("exp", Threshold { num: 10, den: 100 })
    } else if i == 3 {
        ("gen", Threshold { num: 18, den: 100 })
    } else if i == 4 {
        ("pls", Threshold { num: 15, den: 100 })
    } else if i == 5 {
        ("lc", Threshold { num: 10, den: 100 })
    } else if i == 6 {
        ("promo", Threshold { num: 20, den: 100 })
    } else if i == 7 {
        ("bst", Threshold { num: 20, den: 100 })
    } else {
        ("sum", Threshold { num: 10, den: 100 })
    }
}

/// Whether the picture can serve as a template.
pub open spec fn is_usable(image: Image) -> bool {
    image.wf() && image.width * image.height <= MAX_TEMPLATE_PIXELS
}

/// Decides whether the picture can serve as a template.
fn usable(image: &Image) -> (b: bool)
    ensures
        b == is_usable(*image),
{
    assert(0 <= image.width * image.height <= 0xffff_ffff * 0xffff_ffff) by (nonlinear_arith)
        requires
            0 <= image.width <= 0xffff_ffff,
            0 <= image.height <= 0xffff_ffff,
    ;
    let area: u64 = image.width as u64 * image.height as u64;
    if area > MAX_TEMPLATE_PIXELS {
        return false;
    }
    image.data.len() as u64 == 4 * area
}

/// Makes the templates of the symbols from their pictures, given in the
/// order of the symbols.
///
/// There is a result exactly when there is one picture for each symbol and
/// every picture can serve as a template.
pub fn load_templates(images: Vec<Image>) -> (templates: Option<Vec<Template<'static>>>)
    ensures
        templates.is_some() <==> images.len() == TEMPLATES && forall|i: int|
            0 <= i < images.len() ==> is_usable(#[trigger] images[i]),
        templates.is_some() ==> {
            &&& templates.unwrap().len() == TEMPLATES
            &&& forall|i: int|
                0 <= i < TEMPLATES ==> {
                    &&& (#[trigger] templates.unwrap()[i]).label == label_of(i)
                    &&& templates.unwrap()[i].threshold == threshold_of(i)
                    &&& templates.unwrap()[i].image == images[i]
                    &&& templates.unwrap()[i].wf()
                }
        },
{
    if images.len() != TEMPLATES {
        return None;
    }
    let mut rest: Vec<Image> = images;
    let mut templates: Vec<Template<'static>> = Vec::new();
    let mut i: usize = 0;
    while i < TEMPLATES
        invariant
            i <= TEMPLATES,
            images.len() == TEMPLATES,
            templates.len() == i,
            rest@ == images@.subrange(i as int, TEMPLATES as int),
            forall|k: int| 0 <= k < i ==> is_usable(#[trigger] images[k]),
            forall|k: int|
                0 <= k < i ==> {
                    &&& (#[trigger] templates[k]).label == label_of(k)
                    &&& templates[k].threshold == threshold_of(k)
                    &&& templates[k].image == images[k]
                    &&& templates[k].wf()
                },
        decreases TEMPLATES - i,
    {
        let image: Image = rest.remove(0);
        assert(image == images[i as int]);
        assert(rest@ =~= images@.subrange(i as int + 1, TEMPLATES as int));
        if !usable(&image) {
            assert(!is_usable(images[i as int]));
            return None;
        }
        let (label, threshold) = symbol(i);
        templates.push(Template { label, threshold, image });
        i = i + 1;
    }
    Some(templates)
}

/// Whether the template matches somewhere in the image.
pub open spec fn has_match<L: Luma<u8>>(image: &L, template: Template) -> bool {
    exists|x: int, y: int|
        is_placement(
            image.cols() as int,
            image.rows() as int,
            template.image.width as int,
            template.image.height as int,
            x,
            y,
        ) && #[trigger] qualifies(image, &template.image, template.threshold, x, y)
}

/// Whether template `i` is the first of the list that matches in the image.
pub open spec fn is_first_match<L: Luma<u8>>(image: &L, templates: Seq<Template>, i: int) -> bool {
    &&& 0 <= i < templates.len()
    &&& has_match(image, templates[i])
    &&& forall|j: int| 0 <= j < i ==> !has_match(image, #[trigger] templates[j])
}

/// Classifies the symbol of the card: the label of the first template, in
/// the order of the list, that matches somewhere in the image.
pub fn detect_set<'a, L: Luma<u8>>(image: &L, templates: &Vec<Template<'a>>) -> (label: Option<&'a str>)
    requires
        image.inv(),
        forall|i: int| 0 <= i < templates.len() ==> (#[trigger] templates[i]).wf(),
    ensures
        match label {
            Some(name) => exists|i: int|
                is_first_match(image, templates@, i) && name == (#[trigger] templates[i]).label,
            None => forall|i: int| 0 <= i < templates.len() ==> !has_match(image, #[trigger] templates[i]),
        },
{
    let mut i: usize = 0;
    while i < templates.len()
        invariant
            i <= templates.len(),
            image.inv(),
            forall|j: int| 0 <= j < templates.len() ==> (#[trigger] templates[j]).wf(),
            forall|j: int| 0 <= j < i ==> !has_match(image, #[trigger] templates[j]),
        decreases templates.len() - i,
    {
        let found = set_symbol_detection::detect(image, &templates[i].image, templates[i].threshold);
        match found {
            Some(m) => {
                proof {
                    assert(qualifies(
                        image,
                        &templates[i as int].image,
                        templates[i as int].threshold,
                        m.x as int,
                        m.y as int,
                    ));
                    assert(has_match(image, templates[i as int]));
                    assert(is_first_match(image, templates@, i as int));
                }
                return Some(templates[i].label);
            },
            None => {},
        }
        i = i + 1;
    }
    None
}

/// The distance from `hash` to every entry of the catalog.
pub open spec fn distances_of(hash: Seq<u8>, dataset: Seq<DatasetEntry>) -> Seq<u32> {
    Seq::new(dataset.len(), |i: int| distance(hash, dataset[i].hash@) as u32)
}

/// For each entry of a ranking, whether its path holds the label.
pub open spec fn flags_of(order: Seq<usize>, dataset: Seq<DatasetEntry>, label: Seq<char>) -> Seq<bool> {
    Seq::new(order.len(), |j: int| text_contains(dataset[order[j] as int].path@, label))
}

/// The ranking after the symbol has had its say: with a label, the entries
/// whose path holds it come first; without one, the ranking stays.
pub open spec fn preferred(order: Seq<usize>, dataset: Seq<DatasetEntry>, label: Option<&str>) -> Seq<usize> {
    match label {
        Some(name) => promoted(order, flags_of(order, dataset, name@)),
        None => order,
    }
}

/// Whether `matches` is what the catalog gives for `hash`: the `MATCHES`
/// closest entries by `order`, those that agree with the symbol first, each
/// with its distance.
pub open spec fn is_classification(
    matches: Seq<(&DatasetEntry, u32)>,
    order: Seq<usize>,
    hash: Seq<u8>,
    dataset: Seq<DatasetEntry>,
    label: Option<&str>,
) -> bool {
    &&& order.len() == ranking_len(MATCHES as int, dataset.len() as int)
    &&& is_ranking(distances_of(hash, dataset), order, dataset.len() as int)
    &&& matches.len() == order.len()
    &&& forall|j: int|
        0 <= j < matches.len() ==> {
            let k = preferred(order, dataset, label)[j] as int;
            &&& 0 <= k < dataset.len()
            &&& *(#[trigger] matches[j]).0 == dataset[k]
            &&& matches[j].1 == distance(hash, dataset[k].hash@)
        }
}

/// Ranks the catalog for a fingerprint.
///
/// The result lists the `MATCHES` entries closest to `hash`, closest first,
/// entries at the same distance in the order of the catalog. If a symbol was
/// recognised, the entries among them whose path holds its label are moved
/// to the front.
pub fn classify<'a>(hash: &Fingerprint, dataset: &'a Vec<DatasetEntry>, label: Option<&str>) -> (matches: Vec<(&'a DatasetEntry, u32)>)
    requires
        hash.wf(),
        forall|i: int| 0 <= i < dataset.len() ==> (#[trigger] dataset[i]).hash.wf(),
    ensures
        exists|order: Seq<usize>| is_classification(matches@, order, hash@, dataset@, label),
{
    let mut distances: Vec<u32> = Vec::new();
    let mut i: usize = 0;
    while i < dataset.len()
        invariant
            i <= dataset.len(),
            hash.wf(),
            forall|k: int| 0 <= k < dataset.len() ==> (#[trigger] dataset[k]).hash.wf(),
            distances.len() == i,
            forall|k: int| 0 <= k < i ==> #[trigger] distances[k] == distance(hash@, dataset[k].hash@),
        decreases dataset.len() - i,
    {
        distances.push(hash.dist(&dataset[i].hash));
        i = i + 1;
    }
    assert(distances@ =~= distances_of(hash@, dataset@));
    let order: Vec<usize> = fingerprint::rank(&distances, MATCHES);
    let chosen: Vec<usize> = match label {
        Some(name) => {
            let mut flags: Vec<bool> = Vec::new();
            let mut j: usize = 0;
            while j < order.len()
                invariant
                    j <= order.len(),
                    flags.len() == j,
                    is_ranking(distances@, order@, dataset.len() as int),
                    forall|k: int|
                        0 <= k < j ==> #[trigger] flags[k] == text_contains(
                            dataset[order[k] as int].path@,
                            name@,
                        ),
                decreases order.len() - j,
            {
                flags.push(fingerprint::contains(dataset[order[j]].path.as_str(), name));
                j = j + 1;
            }
            assert(flags@ =~= flags_of(order@, dataset@, name@));
            fingerprint::promote(&order, &flags)
        },
        None => {
            let mut same: Vec<usize> = Vec::new();
            let mut j: usize = 0;
            while j < order.len()
                invariant
                    j <= order.len(),
                    same@ == order@.subrange(0, j as int),
                decreases order.len() - j,
            {
                same.push(order[j]);
                assert(same@ =~= order@.subrange(0, j as int + 1));
                j = j + 1;
            }
            assert(same@ =~= order@);
            same
        },
    };
    assert(chosen@ == preferred(order@, dataset@, label));
    proof {
        if label.is_some() {
            let flags = flags_of(order@, dataset@, label.unwrap()@);
            fingerprint::lemma_chosen_from(order@, flags, true, order.len() as int);
            fingerprint::lemma_chosen_from(order@, flags, false, order.len() as int);
        }
        assert forall|j: int| 0 <= j < chosen.len() implies 0 <= #[trigger] chosen[j] < dataset.len() by {
            assert(order@.contains(chosen[j]));
        }
    }
    let mut matches: Vec<(&'a DatasetEntry, u32)> = Vec::new();
    let mut j: usize = 0;
    while j < chosen.len()
        invariant
            j <= chosen.len(),
            matches.len() == j,
            distances.len() == dataset.len(),
            forall|k: int|
                0 <= k < dataset.len() ==> #[trigger] distances[k] == distance(
                    hash@,
                    dataset[k].hash@,
                ),
            forall|k: int| 0 <= k < chosen.len() ==> 0 <= #[trigger] chosen[k] < dataset.len(),
            forall|k: int|
                0 <= k < j ==> *(#[trigger] matches[k]).0 == dataset[chosen[k] as int] && matches[k].1
                    == distance(hash@, dataset[chosen[k] as int].hash@),
        decreases chosen.len() - j,
    {
        let k: usize = chosen[j];
        matches.push((&dataset[k], distances[k]));
        j = j + 1;
    }
    assert(is_classification(matches@, order@, hash@, dataset@, label));
    matches
}

/// The frame as a view over its luma samples.
pub open spec fn frame_view<'a>(frame: &'a [u8], width: u32, height: u32) -> YUYV442<'a, u8> {
    YUYV442 { data: frame, width, height }
}

/// Whether `view` shows the buffer `data` as a `width × height` image.
pub open spec fn shows<T>(view: LumaVec<T>, data: Seq<T>, width: u32, height: u32) -> bool {
    view.data@ == data && view.width == width && view.height == height
}

/// Whether the first five stages have run on the frame: gradient map,
/// silhouette, accumulator, line candidates and corners, each computed from
/// the one before.
pub open spec fn is_traced(frame: &[u8], before: ProcessingBuffers, after: ProcessingBuffers) -> bool {
    &&& after.wf()
    &&& after.width == before.width
    &&& after.height == before.height
    &&& after.source_image == before.source_image
    &&& sobel::is_gradient_map(
        &frame_view(frame, after.width, after.height),
        before.sobel@,
        after.sobel@,
    )
    &&& exists|gradient: LumaVec<u8>|
        #![trigger shows(gradient, after.sobel@, after.width, after.height)]
        shows(gradient, after.sobel@, after.width, after.height) && border::is_silhouette(
            &gradient,
            after.border@,
        )
    &&& hough::is_accumulator(after.border@, after.width as int, after.height as int, after.hough@)
    &&& after.lines@ == clusters(after.hough@, CELLS as int)
    &&& after.corners@ == corners_of(after.lines@, after.width as int, after.height as int)
}

/// Whether the card was found: four corners, no three of them on one line.
pub open spec fn is_found(corners: Seq<(u32, u32)>) -> bool {
    corners.len() == 4 && in_general_position(corners)
}

/// The transform that rectifies the card with the given corners.
pub open spec fn rectifier(corners: Seq<(u32, u32)>) -> Homography {
    homography_of(corners, CARD_WIDTH + 2 * CARD_MARGIN, CARD_HEIGHT + 2 * CARD_MARGIN)
}

/// Whether `card` is an image of the size of a card.
pub open spec fn is_card(card: Image) -> bool {
    card.wf() && card.width == CARD_WIDTH && card.height == CARD_HEIGHT
}

/// Whether `card` is the card cut out of `source` and rectified.
pub open spec fn is_rectified(source: Image, corners: Seq<(u32, u32)>, card: Image) -> bool {
    &&& is_card(card)
    &&& forall|x: int, y: int|
        0 <= x < CARD_WIDTH && 0 <= y < CARD_HEIGHT ==> #[trigger] card.pixel(x, y) == resampled(
            &source,
            &rectifier(corners),
            CARD_MARGIN as int,
            (0u8, 0u8, 0u8, 0u8),
            x,
            y,
        )
}

/// Whether `card` is a card without a picture.
pub open spec fn is_blank(card: Image) -> bool {
    &&& is_card(card)
    &&& forall|i: int| 0 <= i < card.data.len() ==> card.data[i] == 0
}

/// Whether `gray` is the grayscale of `card`.
pub open spec fn is_grayscale(gray: LumaVec<u8>, card: Image) -> bool {
    &&& gray.inv()
    &&& gray.width == card.width
    &&& gray.height == card.height
    &&& forall|x: int, y: int|
        0 <= x < card.width && 0 <= y < card.height ==> #[trigger] gray.data@[grid::cell(
            x,
            y,
            card.width as int,
        )] == luma_of(card.pixel(x, y).0, card.pixel(x, y).1, card.pixel(x, y).2)
}

/// Whether `label` is the symbol that the templates find in the image.
pub open spec fn is_symbol<L: Luma<u8>>(image: &L, templates: Seq<Template>, label: Option<&str>) -> bool {
    match label {
        Some(name) => exists|i: int|
            is_first_match(image, templates, i) && name == (#[trigger] templates[i]).label,
        None => forall|i: int| 0 <= i < templates.len() ==> !has_match(image, #[trigger] templates[i]),
    }
}

/// Whether the outcome is what the rectified card gives: the symbol that
/// the templates find in its grayscale, and the classification of one of
/// its fingerprints.
pub open spec fn is_identified(
    card: Image,
    dataset: Seq<DatasetEntry>,
    templates: Seq<Template>,
    matches: Option<Vec<(&DatasetEntry, u32)>>,
    label: Option<&str>,
) -> bool {
    &&& exists|gray: LumaVec<u8>| #[trigger] is_grayscale(gray, card) && is_symbol(&gray, templates, label)
    &&& matches.is_some()
    &&& exists|hash: Seq<u8>, order: Seq<usize>|
        hash.len() == fingerprint::HASH_BYTES && #[trigger] is_classification(
            matches.unwrap()@,
            order,
            hash,
            dataset,
            label,
        )
}

/// Runs the pipeline on one frame.
///
/// The frame is traced to corners through the gradient map, the silhouette,
/// the accumulator and the line candidates. If the card is found, it is cut
/// out of the source image and rectified, its symbol is classified and its
/// fingerprint is ranked against the catalog. If not, the frame yields no
/// detection and the card buffer is left blank.
pub fn process<'a>(
    processing: &mut ProcessingPipeline,
    dataset: &'a Vec<DatasetEntry>,
    templates: &Vec<Template<'a>>,
) -> (outcome: (ProcessingTimes, Option<Vec<(&'a DatasetEntry, u32)>>, Option<&'a str>))
    requires
        old(processing).buffers.wf(),
        old(processing).frame@.len() >= 2 * (old(processing).buffers.width * old(
            processing,
        ).buffers.height),
        forall|i: int| 0 <= i < dataset.len() ==> (#[trigger] dataset[i]).hash.wf(),
        forall|i: int| 0 <= i < templates.len() ==> (#[trigger] templates[i]).wf(),
    ensures
        final(processing).frame == old(processing).frame,
        is_traced(old(processing).frame, *old(processing).buffers, *final(processing).buffers),
        !is_found(final(processing).buffers.corners@) ==> {
            &&& outcome.1.is_none()
            &&& outcome.2.is_none()
            &&& is_blank(final(processing).buffers.perspective_image)
        },
        is_found(final(processing).buffers.corners@) ==> {
            &&& is_rectified(
                final(processing).buffers.source_image,
                final(processing).buffers.corners@,
                final(processing).buffers.perspective_image,
            )
            &&& is_identified(
                final(processing).buffers.perspective_image,
                dataset@,
                templates@,
                outcome.1,
                outcome.2,
            )
        },
{
    let width: u32 = processing.buffers.width;
    let height: u32 = processing.buffers.height;
    let mut times = ProcessingTimes {
        sobel: no_time(),
        border: no_time(),
        hough: no_time(),
        corners: no_time(),
        perspective: no_time(),
        phash: no_time(),
    };

    let mut time = now();
    let view = YUYV442 { data: processing.frame, width, height };
    sobel::calculate(&view, &mut processing.buffers.sobel);
    times.sobel = elapsed(&time);
    time = now();

    let gradient = LumaVec { data: processing.buffers.sobel.as_slice(), width, height };
    border::calculate(&gradient, &mut processing.buffers.border);
    assert(shows(gradient, processing.buffers.sobel@, width, height));
    times.border = elapsed(&time);
    time = now();

    proof {
        let mask = processing.buffers.border@;
        assert forall|i: int| 0 <= i < mask.len() implies mask[i] <= 1 by {
            if width > 0 {
                grid::lemma_position_is_cell(i, width as int, height as int);
                let x = i % (width as int);
                let y = i / (width as int);
                assert(mask[grid::cell(x, y, width as int)] == border::flag(
                    border::on_outline(&gradient, x, y),
                ));
            } else {
                assert(width * height == 0) by (nonlinear_arith)
                    requires
                        width == 0,
                ;
            }
        }
        hough::lemma_flag_mask_weight(mask, width as int, height as int);
    }
    hough::calculate(&processing.buffers.border, width, height, &mut processing.buffers.hough);
    times.hough = elapsed(&time);
    time = now();

    lines::calculate(&processing.buffers.hough, &mut processing.buffers.lines);
    corners::calculate(&processing.buffers.lines, width, height, &mut processing.buffers.corners);
    times.corners = elapsed(&time);
    time = now();
    assert(is_traced(old(processing).frame, *old(processing).buffers, *processing.buffers));

    processing.buffers.perspective_image = Image::new(CARD_WIDTH, CARD_HEIGHT);
    if processing.buffers.corners.len() == 0 {
        return (times, None, None);
    }
    let c = perspective::calculate(
        &processing.buffers.corners,
        CARD_WIDTH + 2 * CARD_MARGIN,
        CARD_HEIGHT + 2 * CARD_MARGIN,
    );
    let h: Homography = match c {
        Some(h) => h,
        None => {
            return (times, None, None);
        },
    };
    perspective::resample(
        &processing.buffers.source_image,
        &h,
        CARD_MARGIN,
        &mut processing.buffers.perspective_image,
    );
    times.perspective = elapsed(&time);
    time = now();

    let hash: Fingerprint = Fingerprint::of_image(&processing.buffers.perspective_image);
    let luma: Vec<u8> = raster::grayscale(&processing.buffers.perspective_image);
    let gray = LumaVec { data: luma.as_slice(), width: CARD_WIDTH, height: CARD_HEIGHT };
    let detected_set: Option<&'a str> = detect_set(&gray, templates);
    let matches = classify(&hash, dataset, detected_set);
    times.phash = elapsed(&time);
    proof {
        // The grayscale and the fingerprint that were used bear out the outcome.
        let card = processing.buffers.perspective_image;
        let found = Some(matches);
        let order = choose|order: Seq<usize>|
            is_classification(matches@, order, hash@, dataset@, detected_set);
        assert(is_grayscale(gray, card) && is_symbol(&gray, templates@, detected_set));
        assert(is_classification(found.unwrap()@, order, hash@, dataset@, detected_set));
    }
    (times, Some(matches), detected_set)
}

} // verus!
