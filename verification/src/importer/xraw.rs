use vstd::prelude::*;
use vstd::std_specs::cmp::{PartialEqSpec, PartialEqSpecImpl};
use vstd::utf8::{valid_utf8, decode_utf8};
use crate::math::Vec3i;
use crate::voxel::Matrix;
use vstd::layout::size_of;
use crate::importer::base::{
    bytes_at, le_value, read_string, read_u16, read_u32, read_vec3i_from_u32s, ImportError,
};

verus! {

// ---------------------------------------------------------------------------
// channel values

/// An integer type that a colour channel of a voxel is stored in.
pub trait Channel: Copy + Eq + Sized {
    /// The value of this type that stands for the integer `v`, when the type
    /// can represent `v`.
    spec fn from_int(v: int) -> Option<Self>;

    /// Converts `v` into this type, `None` when it does not fit.
    fn from_u32(v: u32) -> (r: Option<Self>)
        ensures
            r == Self::from_int(v as int),
    ;
}

/// `<u8 as num::NumCast>::from` on a `u32`: the same value when it is at
/// most `u8::MAX`, `None` otherwise.
#[verifier::external_body]
fn num_cast_u8(v: u32) -> (r: Option<u8>)
    ensures
        r == (if v <= u8::MAX { Some(v as u8) } else { None::<u8> }),
{
    <u8 as num::NumCast>::from(v)
}

/// `<u16 as num::NumCast>::from` on a `u32`: the same value when it is at
/// most `u16::MAX`, `None` otherwise.
#[verifier::external_body]
fn num_cast_u16(v: u32) -> (r: Option<u16>)
    ensures
        r == (if v <= u16::MAX { Some(v as u16) } else { None::<u16> }),
{
    <u16 as num::NumCast>::from(v)
}

/// `<u32 as num::NumCast>::from` on a `u32`: always the same value.
#[verifier::external_body]
fn num_cast_u32(v: u32) -> (r: Option<u32>)
    ensures
        r == Some(v),
{
    <u32 as num::NumCast>::from(v)
}

/// `<i8 as num::NumCast>::from` on a `u32`: the same value when it is at
/// most `i8::MAX`, `None` otherwise.
#[verifier::external_body]
fn num_cast_i8(v: u32) -> (r: Option<i8>)
    ensures
        r == (if v <= i8::MAX { Some(v as i8) } else { None::<i8> }),
{
    <i8 as num::NumCast>::from(v)
}

/// `<i16 as num::NumCast>::from` on a `u32`: the same value when it is at
/// most `i16::MAX`, `None` otherwise.
#[verifier::external_body]
fn num_cast_i16(v: u32) -> (r: Option<i16>)
    ensures
        r == (if v <= i16::MAX { Some(v as i16) } else { None::<i16> }),
{
    <i16 as num::NumCast>::from(v)
}

/// `<i32 as num::NumCast>::from` on a `u32`: the same value when it is at
/// most `i32::MAX`, `None` otherwise.
#[verifier::external_body]
fn num_cast_i32(v: u32) -> (r: Option<i32>)
    ensures
        r == (if v <= i32::MAX { Some(v as i32) } else { None::<i32> }),
{
    <i32 as num::NumCast>::from(v)
}

impl Channel for u8 {
    open spec fn from_int(v: int) -> Option<u8> {
        if 0 <= v <= u8::MAX {
            Some(v as u8)
        } else {
            None
        }
    }

    fn from_u32(v: u32) -> (r: Option<u8>) {
        num_cast_u8(v)
    }
}

impl Channel for u16 {
    open spec fn from_int(v: int) -> Option<u16> {
        if 0 <= v <= u16::MAX {
            Some(v as u16)
        } else {
            None
        }
    }

    fn from_u32(v: u32) -> (r: Option<u16>) {
        num_cast_u16(v)
    }
}

impl Channel for u32 {
    open spec fn from_int(v: int) -> Option<u32> {
        if 0 <= v <= u32::MAX {
            Some(v as u32)
        } else {
            None
        }
    }

    fn from_u32(v: u32) -> (r: Option<u32>) {
        num_cast_u32(v)
    }
}

impl Channel for i8 {
    open spec fn from_int(v: int) -> Option<i8> {
        if i8::MIN <= v <= i8::MAX {
            Some(v as i8)
        } else {
            None
        }
    }

    fn from_u32(v: u32) -> (r: Option<i8>) {
        num_cast_i8(v)
    }
}

impl Channel for i16 {
    open spec fn from_int(v: int) -> Option<i16> {
        if i16::MIN <= v <= i16::MAX {
            Some(v as i16)
        } else {
            None
        }
    }

    fn from_u32(v: u32) -> (r: Option<i16>) {
        num_cast_i16(v)
    }
}

impl Channel for i32 {
    open spec fn from_int(v: int) -> Option<i32> {
        if i32::MIN <= v <= i32::MAX {
            Some(v as i32)
        } else {
            None
        }
    }

    fn from_u32(v: u32) -> (r: Option<i32>) {
        num_cast_i32(v)
    }
}

impl Channel for u64 {
    open spec fn from_int(v: int) -> Option<u64> {
        if 0 <= v <= u64::MAX {
            Some(v as u64)
        } else {
            None
        }
    }

    /// Every `u32` fits in this type.
    fn from_u32(v: u32) -> (r: Option<u64>) {
        Some(v as u64)
    }
}

impl Channel for u128 {
    open spec fn from_int(v: int) -> Option<u128> {
        if 0 <= v <= u128::MAX {
            Some(v as u128)
        } else {
            None
        }
    }

    /// Every `u32` fits in this type.
    fn from_u32(v: u32) -> (r: Option<u128>) {
        Some(v as u128)
    }
}

impl Channel for usize {
    open spec fn from_int(v: int) -> Option<usize> {
        if 0 <= v <= usize::MAX {
            Some(v as usize)
        } else {
            None
        }
    }

    /// Every `u32` fits in this type.
    fn from_u32(v: u32) -> (r: Option<usize>) {
        Some(v as usize)
    }
}

impl Channel for i64 {
    open spec fn from_int(v: int) -> Option<i64> {
        if i64::MIN <= v <= i64::MAX {
            Some(v as i64)
        } else {
            None
        }
    }

    /// Every `u32` fits in this type.
    fn from_u32(v: u32) -> (r: Option<i64>) {
        Some(v as i64)
    }
}

impl Channel for i128 {
    open spec fn from_int(v: int) -> Option<i128> {
        if i128::MIN <= v <= i128::MAX {
            Some(v as i128)
        } else {
            None
        }
    }

    /// Every `u32` fits in this type.
    fn from_u32(v: u32) -> (r: Option<i128>) {
        Some(v as i128)
    }
}

impl Channel for isize {
    open spec fn from_int(v: int) -> Option<isize> {
        if isize::MIN <= v <= isize::MAX {
            Some(v as isize)
        } else {
            None
        }
    }

    /// A `u32` fits in an `isize` of 64 bits, and in one of 32 bits when it
    /// is at most `isize::MAX`.
    fn from_u32(v: u32) -> (r: Option<isize>) {
        if (v as usize) <= (isize::MAX as usize) {
            Some(v as isize)
        } else {
            None
        }
    }
}

// ---------------------------------------------------------------------------
// Voxel data

#[derive(Clone, Copy, Debug, Eq)]
pub struct Voxel<T>(pub [T; 4]);

impl<T: Copy> Voxel<T> {
    pub fn new(r: T, g: T, b: T, a: T) -> (v: Self)
        ensures
            v.0@ == seq![r, g, b, a],
    {
        let v = Self([r, g, b, a]);
        assert(v.0@ =~= seq![r, g, b, a]);
        v
    }

    pub fn void(empty: T) -> (v: Self)
        ensures
            v.0@ == seq![empty, empty, empty, empty],
    {
        Self::new(empty, empty, empty, empty)
    }
}

impl<T: Eq> PartialEq for Voxel<T> {
    fn eq(&self, o: &Self) -> (r: bool) {
        let mut i: usize = 0;
        while i < 4
            invariant
                i <= 4,
                <T as PartialEqSpec>::obeys_eq_spec() ==> forall|j: int|
                    0 <= j < i ==> (#[trigger] self.0@[j]).eq_spec(&o.0@[j]),
            decreases 4 - i,
        {
            if self.0[i] != o.0[i] {
                return false;
            }
            i = i + 1;
        }
        true
    }
}

impl<T: Eq> PartialEqSpecImpl for Voxel<T> {
    open spec fn obeys_eq_spec() -> bool {
        <T as PartialEqSpec>::obeys_eq_spec()
    }

    /// Two voxels are equal when their four channels are.
    open spec fn eq_spec(&self, other: &Self) -> bool {
        forall|i: int| 0 <= i < 4 ==> (#[trigger] self.0@[i]).eq_spec(&other.0@[i])
    }
}

// ---------------------------------------------------------------------------
// header

// read the header of the file before reading the content itself
pub const HEADER_SIZE: usize = 24;

// specify the format of xraw file header
pub struct XRawHeader {
    pub magic_number: String,
    pub color_channel_data_type: usize,
    pub color_channels_amount: usize,
    pub bits_per_channel: usize,
    pub bits_per_index: usize,
    pub dimensions: Vec3i,
    pub palette_colors_amount: usize,
}

impl XRawHeader {
    /// `h` is the header that the 24 bytes `buffer` encode: a four-character
    /// magic text, four single-byte fields, the three dimensions and the
    /// number of palette colours, as little-endian 32-bit integers.
    pub open spec fn decodes(h: &XRawHeader, buffer: Seq<u8>) -> bool {
        &&& h.magic_number@ == decode_utf8(bytes_at(buffer, 0, 4))
        &&& h.color_channel_data_type == buffer[4]
        &&& h.color_channels_amount == buffer[5]
        &&& h.bits_per_channel == buffer[6]
        &&& h.bits_per_index == buffer[7]
        &&& h.dimensions.x == le_value(bytes_at(buffer, 8, 4))
        &&& h.dimensions.y == le_value(bytes_at(buffer, 12, 4))
        &&& h.dimensions.z == le_value(bytes_at(buffer, 16, 4))
        &&& h.palette_colors_amount == le_value(bytes_at(buffer, 20, 4))
    }

    // read only the header of the file: `read` is the outcome of one read
    // of the file into `buffer`, the number of bytes it filled
    pub fn load(buffer: &[u8], read: Result<usize, std::io::Error>) -> (r: Result<
        Self,
        ImportError,
    >)
        requires
            buffer.len() == HEADER_SIZE,
            read == Ok::<usize, std::io::Error>(HEADER_SIZE) ==> valid_utf8(bytes_at(buffer@, 0, 4)),
        ensures
            match read {
                Ok(amount_bytes) => if amount_bytes == HEADER_SIZE {
                    r matches Ok(h) && Self::decodes(&h, buffer@)
                } else {
                    r matches Err(ImportError::Header(expected, got)) && expected == HEADER_SIZE
                        && got == amount_bytes
                },
                Err(err) => r matches Err(ImportError::File(e)) && e == err,
            },
    {
        // read the whole header into a buffer
        match read {
            Ok(amount_bytes) => {
                if amount_bytes == HEADER_SIZE {
                    let dimensions = read_vec3i_from_u32s(buffer, 8);
                    return Ok(
                        Self {
                            magic_number: read_string(buffer, 0, 4),
                            color_channel_data_type: buffer[4] as usize,
                            color_channels_amount: buffer[5] as usize,
                            bits_per_channel: buffer[6] as usize,
                            bits_per_index: buffer[7] as usize,
                            dimensions,
                            palette_colors_amount: read_u32(buffer, 20) as usize,
                        },
                    );
                } else {
                    return Err(ImportError::Header(HEADER_SIZE, amount_bytes));
                }
            },
            Err(err) => return Err(ImportError::File(err)),
        }
    }
}

// ---------------------------------------------------------------------------
// voxel matrices

// load the matrix containing u8 indexes
pub fn load_matrix_u8(buffer: &Vec<u8>, size: Vec3i) -> (matrix: Matrix<u8>)
    requires
        size.volume() <= usize::MAX,
        size.volume() <= buffer.len(),
    ensures
        matrix.wf(),
        matrix.size == size,
        matrix.data@ == buffer@.subrange(0, size.volume() as int),
{
    let mut matrix = Matrix::<u8>::new(size, 0u8);
    let n = matrix.data.len();
    let mut index: usize = 0;
    while index < n
        invariant
            n == matrix.data@.len() == size.volume() <= buffer.len(),
            matrix.size == size,
            index <= n,
            forall|k: int| 0 <= k < index ==> matrix.data@[k] == buffer@[k],
        decreases n - index,
    {
        matrix.data.set(index, buffer[index]);
        index = index + 1;
    }
    assert(matrix.data@ =~= buffer@.subrange(0, size.volume() as int));
    return matrix;
}

// load the matrix containing u16 indexes
pub fn load_matrix_u16(buffer: &Vec<u8>, size: Vec3i) -> (matrix: Matrix<u16>)
    requires
        size.volume() <= usize::MAX,
        2 * size.volume() <= buffer.len(),
    ensures
        matrix.wf(),
        matrix.size == size,
        forall|k: int|
            0 <= k < size.volume() ==> #[trigger] matrix.data@[k] == le_value(
                bytes_at(buffer@, 2 * k, 2),
            ),
{
    let mut matrix = Matrix::<u16>::new(size, 0xffffu16);
    let n = matrix.data.len();
    let mut k: usize = 0;
    let mut index: usize = 0;
    while k < n
        invariant
            n == matrix.data@.len() == size.volume(),
            2 * n <= buffer.len(),
            matrix.size == size,
            k <= n,
            index == 2 * k,
            forall|q: int|
                0 <= q < k ==> #[trigger] matrix.data@[q] == le_value(
                    bytes_at(buffer@, 2 * q, 2),
                ),
        decreases n - k,
    {
        matrix.data.set(k, read_u16(buffer.as_slice(), index));
        index = index + 2;
        k = k + 1;
    }
    return matrix;
}

/// Integer value of channel `j` of the raw voxel data, whose channels are
/// stored on `width` bytes each, little-endian.
pub open spec fn raw_channel(buffer: Seq<u8>, width: int, j: int) -> nat {
    le_value(bytes_at(buffer, j * width, width))
}

/// The channels of voxel `k` when each voxel stores `channels` channels:
/// those it stores, then `empty` up to four.
pub open spec fn voxel_channels<T: Channel>(
    buffer: Seq<u8>,
    width: int,
    channels: int,
    k: int,
    empty: T,
) -> Seq<T> {
    Seq::new(
        4,
        |i: int|
            if i < channels {
                T::from_int(raw_channel(buffer, width, k * channels + i) as int).unwrap()
            } else {
                empty
            },
    )
}

/// The first `count` channels of the raw data all have a value in `T`.
pub open spec fn channels_fit<T: Channel>(buffer: Seq<u8>, width: int, count: int) -> bool {
    forall|j: int|
        0 <= j < count ==> (#[trigger] T::from_int(raw_channel(buffer, width, j) as int)) is Some
}

/// The channel sizes, in bytes, that voxel data is read in.
pub open spec fn handled_width(width: int) -> bool {
    width == 1 || width == 2 || width == 4
}

/// Reads the channel of `width` bytes at `index`.
fn read_channel(buffer: &Vec<u8>, index: usize, width: usize) -> (r: u32)
    requires
        handled_width(width as int),
        index + width <= buffer.len(),
    ensures
        r == le_value(bytes_at(buffer@, index as int, width as int)),
{
    if width == 1 {
        proof {
            let b = bytes_at(buffer@, index as int, 1);
            assert(le_value(b) == b[0] + 256 * le_value(b.drop_first()));
        }
        buffer[index] as u32
    } else if width == 2 {
        read_u16(buffer.as_slice(), index) as u32
    } else {
        read_u32(buffer.as_slice(), index)
    }
}

proof fn lemma_channel_position(k: int, i: int, c: int, n: int, w: int)
    by (nonlinear_arith)
    requires
        0 <= k < n,
        0 <= i < c,
        w > 0,
    ensures
        k * c + i < n * c,
        (k * c + i) * w + w <= n * c * w,
        (k * c + i + 1) * w == (k * c + i) * w + w,
        0 <= (k * c + i) * w,
{
}

proof fn lemma_next_voxel(k: int, c: int)
    by (nonlinear_arith)
    ensures
        (k + 1) * c == k * c + c,
{
}

/// Fills every cell of `matrix` with the voxel its raw data describes.
fn fill_voxels<T: Channel>(
    buffer: &Vec<u8>,
    matrix: &mut Matrix<Voxel<T>>,
    empty: T,
    channels: usize,
    width: usize,
)
    requires
        handled_width(width as int),
        old(matrix).data@.len() > 0 ==> {
            &&& channels <= 4
            &&& old(matrix).data@.len() * channels * width <= buffer.len()
            &&& channels_fit::<T>(
                buffer@,
                width as int,
                old(matrix).data@.len() * channels,
            )
        },
    ensures
        final(matrix).size == old(matrix).size,
        final(matrix).data@.len() == old(matrix).data@.len(),
        forall|k: int|
            0 <= k < old(matrix).data@.len() ==> (#[trigger] final(matrix).data@[k]).0@
                == voxel_channels(buffer@, width as int, channels as int, k, empty),
{
    let n = matrix.data.len();
    let empty_voxel = Voxel::<T>::void(empty);
    let mut index: usize = 0;
    let mut k: usize = 0;
    while k < n
        invariant
            n == matrix.data@.len() == old(matrix).data@.len(),
            matrix.size == old(matrix).size,
            handled_width(width as int),
            empty_voxel.0@ == seq![empty, empty, empty, empty],
            n > 0 ==> {
                &&& channels <= 4
                &&& n * channels * width <= buffer.len()
                &&& channels_fit::<T>(buffer@, width as int, n * channels)
            },
            k <= n,
            index == k * channels * width,
            forall|q: int|
                0 <= q < k ==> (#[trigger] matrix.data@[q]).0@ == voxel_channels(
                    buffer@,
                    width as int,
                    channels as int,
                    q,
                    empty,
                ),
        decreases n - k,
    {
        let mut cell = empty_voxel;
        let mut i: usize = 0;
        proof {
            assert(cell.0@[0] == empty && cell.0@[1] == empty && cell.0@[2] == empty && cell.0@[3]
                == empty);
            assert(cell.0@ =~= Seq::new(
                4,
                |q: int|
                    if q < 0 {
                        T::from_int(raw_channel(buffer@, width as int, k * channels + q) as int).unwrap()
                    } else {
                        empty
                    },
            ));
        }
        while i < channels
            invariant
                0 <= k < n,
                channels <= 4,
                n * channels * width <= buffer.len(),
                channels_fit::<T>(buffer@, width as int, n * channels),
                handled_width(width as int),
                i <= channels,
                index == (k * channels + i) * width,
                cell.0@ == Seq::new(
                    4,
                    |q: int|
                        if q < i {
                            T::from_int(
                                raw_channel(buffer@, width as int, k * channels + q) as int,
                            ).unwrap()
                        } else {
                            empty
                        },
                ),
            decreases channels - i,
        {
            proof {
                lemma_channel_position(k as int, i as int, channels as int, n as int, width as int);
            }
            let raw = read_channel(buffer, index, width);
            let ghost j = k * channels + i;
            assert(T::from_int(raw_channel(buffer@, width as int, j) as int) is Some);
            let value = T::from_u32(raw).unwrap();
            cell.0[i] = value;
            index = index + width;
            i = i + 1;
            proof {
                assert(cell.0@ =~= Seq::new(
                    4,
                    |q: int|
                        if q < i {
                            T::from_int(
                                raw_channel(buffer@, width as int, k * channels + q) as int,
                            ).unwrap()
                        } else {
                            empty
                        },
                ));
            }
        }
        proof {
            lemma_next_voxel(k as int, channels as int);
            assert(cell.0@ =~= voxel_channels(buffer@, width as int, channels as int, k as int, empty));
        }
        matrix.data.set(k, cell);
        k = k + 1;
    }
}

// load the matrix of voxels; channels of 1, 2 or 4 bytes are read, any other
// channel size leaves every voxel empty
pub fn load_matrix_voxel<T: Channel>(
    buffer: &Vec<u8>,
    size: Vec3i,
    empty: T,
    channels_amount: usize,
) -> (matrix: Matrix<Voxel<T>>)
    requires
        size.volume() <= usize::MAX,
        handled_width(size_of::<T>() as int) && size.volume() > 0 ==> {
            &&& channels_amount <= 4
            &&& size.volume() * channels_amount * size_of::<T>() <= buffer.len()
            &&& channels_fit::<T>(
                buffer@,
                size_of::<T>() as int,
                size.volume() * channels_amount,
            )
        },
    ensures
        matrix.wf(),
        matrix.size == size,
        forall|k: int|
            0 <= k < size.volume() ==> (#[trigger] matrix.data@[k]).0@ == if handled_width(
                size_of::<T>() as int,
            ) {
                voxel_channels(buffer@, size_of::<T>() as int, channels_amount as int, k, empty)
            } else {
                seq![empty, empty, empty, empty]
            },
{
    let empty_voxel = Voxel::<T>::void(empty);
    let mut matrix = Matrix::<Voxel<T>>::new(size, empty_voxel);

    let width = core::mem::size_of::<T>();
    match width {
        1 => fill_voxels(buffer, &mut matrix, empty, channels_amount, 1),
        2 => fill_voxels(buffer, &mut matrix, empty, channels_amount, 2),
        4 => fill_voxels(buffer, &mut matrix, empty, channels_amount, 4),
        _ => {},
    }
    return matrix;
}

// ---------------------------------------------------------------------------
// bytes past the data of the grid are not read

/// The voxels of a grid of `volume` cells of `channels` channels of `width`
/// bytes depend only on the first `volume * channels * width` bytes of the
/// buffer: bytes appended after them change no voxel, nor whether every
/// channel value fits in `T`.
pub proof fn voxels_ignore_trailing_bytes<T: Channel>(
    buffer: Seq<u8>,
    extra: Seq<u8>,
    width: int,
    channels: int,
    volume: int,
    empty: T,
)
    requires
        handled_width(width),
        0 <= channels <= 4,
        0 <= volume,
        volume * channels * width <= buffer.len(),
    ensures
        forall|k: int|
            0 <= k < volume ==> #[trigger] voxel_channels(buffer + extra, width, channels, k, empty)
                == voxel_channels(buffer, width, channels, k, empty),
        channels_fit::<T>(buffer + extra, width, volume * channels) == channels_fit::<T>(
            buffer,
            width,
            volume * channels,
        ),
{
    let whole = buffer + extra;
    assert forall|k: int, i: int| 0 <= k < volume && 0 <= i < channels implies #[trigger] raw_channel(
        whole,
        width,
        k * channels + i,
    ) == raw_channel(buffer, width, k * channels + i) by {
        lemma_channel_position(k, i, channels, volume, width);
        let j = k * channels + i;
        assert(bytes_at(whole, j * width, width) =~= bytes_at(buffer, j * width, width));
    }
    assert forall|k: int| 0 <= k < volume implies #[trigger] voxel_channels(
        whole,
        width,
        channels,
        k,
        empty,
    ) == voxel_channels(buffer, width, channels, k, empty) by {
        assert forall|i: int| 0 <= i < 4 implies voxel_channels(whole, width, channels, k, empty)[i]
            == voxel_channels(buffer, width, channels, k, empty)[i] by {
            if i < channels {
                assert(raw_channel(whole, width, k * channels + i) == raw_channel(
                    buffer,
                    width,
                    k * channels + i,
                ));
            }
        }
        assert(voxel_channels(whole, width, channels, k, empty) =~= voxel_channels(
            buffer,
            width,
            channels,
            k,
            empty,
        ));
    }
    assert forall|j: int| 0 <= j < volume * channels implies #[trigger] raw_channel(
        whole,
        width,
        j,
    ) == raw_channel(buffer, width, j) by {
        lemma_split_channel(j, channels, volume);
        let k = j / channels;
        let i = j % channels;
        assert(raw_channel(whole, width, k * channels + i) == raw_channel(
            buffer,
            width,
            k * channels + i,
        ));
    }
    if channels_fit::<T>(buffer, width, volume * channels) {
        assert forall|j: int| 0 <= j < volume * channels implies (#[trigger] T::from_int(
            raw_channel(whole, width, j) as int,
        )) is Some by {
            assert(raw_channel(whole, width, j) == raw_channel(buffer, width, j));
            assert(T::from_int(raw_channel(buffer, width, j) as int) is Some);
        }
    }
    if channels_fit::<T>(whole, width, volume * channels) {
        assert forall|j: int| 0 <= j < volume * channels implies (#[trigger] T::from_int(
            raw_channel(buffer, width, j) as int,
        )) is Some by {
            assert(raw_channel(whole, width, j) == raw_channel(buffer, width, j));
            assert(T::from_int(raw_channel(whole, width, j) as int) is Some);
        }
    }
}

proof fn lemma_split_channel(j: int, c: int, n: int)
    by (nonlinear_arith)
    requires
        0 <= j < n * c,
        0 <= n,
    ensures
        c > 0,
        0 <= j / c < n,
        0 <= j % c < c,
        j == (j / c) * c + j % c,
{
}

/// The index matrices of a grid of `volume` cells depend only on the first
/// `volume` bytes (one-byte indexes) or `2 * volume` bytes (two-byte
/// indexes) of the buffer: bytes appended after them change no cell.
pub proof fn indexes_ignore_trailing_bytes(buffer: Seq<u8>, extra: Seq<u8>, volume: int)
    requires
        0 <= volume,
    ensures
        volume <= buffer.len() ==> (buffer + extra).subrange(0, volume) == buffer.subrange(
            0,
            volume,
        ),
        2 * volume <= buffer.len() ==> forall|k: int|
            0 <= k < volume ==> #[trigger] le_value(bytes_at(buffer + extra, 2 * k, 2)) == le_value(
                bytes_at(buffer, 2 * k, 2),
            ),
{
    if volume <= buffer.len() {
        assert((buffer + extra).subrange(0, volume) =~= buffer.subrange(0, volume));
    }
    if 2 * volume <= buffer.len() {
        assert forall|k: int| 0 <= k < volume implies #[trigger] le_value(
            bytes_at(buffer + extra, 2 * k, 2),
        ) == le_value(bytes_at(buffer, 2 * k, 2)) by {
            assert(bytes_at(buffer + extra, 2 * k, 2) =~= bytes_at(buffer, 2 * k, 2));
        }
    }
}

// ---------------------------------------------------------------------------
// equality of voxels

/// For a channel type whose `==` is equality of values, two voxels compare
/// equal exactly when all four of their channels are equal, and the voxels'
/// `==` follows that rule.
pub proof fn voxel_eq_is_channel_equality<T: Channel>(a: Voxel<T>, b: Voxel<T>)
    requires
        <T as PartialEqSpec>::obeys_eq_spec(),
        forall|x: T, y: T| #[trigger] <T as PartialEqSpec>::eq_spec(&x, &y) <==> x == y,
    ensures
        <Voxel<T> as PartialEqSpec>::obeys_eq_spec(),
        <Voxel<T> as PartialEqSpec>::eq_spec(&a, &b) <==> (forall|i: int| 0 <= i < 4 ==> a.0@[i] == b.0@[i]),
        <Voxel<T> as PartialEqSpec>::eq_spec(&a, &b) <==> a.0@ == b.0@,
{
    if <Voxel<T> as PartialEqSpec>::eq_spec(&a, &b) {
        assert forall|i: int| 0 <= i < 4 implies a.0@[i] == b.0@[i] by {
            assert(<T as PartialEqSpec>::eq_spec(&a.0@[i], &b.0@[i]));
        }
        assert(a.0@ =~= b.0@);
    }
    if forall|i: int| 0 <= i < 4 ==> a.0@[i] == b.0@[i] {
        assert forall|i: int| 0 <= i < 4 implies <T as PartialEqSpec>::eq_spec(&#[trigger] a.0@[i], &b.0@[i]) by {
            assert(a.0@[i] == b.0@[i]);
        }
    }
}

/// Voxels of bytes compare equal exactly when their four channels are equal.
pub proof fn voxel_u8_eq_is_channel_equality(a: Voxel<u8>, b: Voxel<u8>)
    ensures
        <Voxel<u8> as PartialEqSpec>::obeys_eq_spec(),
        <Voxel<u8> as PartialEqSpec>::eq_spec(&a, &b) <==> (forall|i: int| 0 <= i < 4 ==> a.0@[i] == b.0@[i]),
{
    voxel_eq_is_channel_equality(a, b);
}

} // verus!
