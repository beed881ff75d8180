//! The bodies of object header messages.

use vstd::prelude::*;
use crate::bytes::{copy_range, get_le, get_u16, get_u32, get_u64, le_at};
use crate::datatype::{datatype_in, parse_datatype as parse_dtype};
use crate::dtype::{views, Dtype, DtypeModel};
use crate::error::{outcome, text, ErrorKind, OxiH5Error};
use crate::global_heap::align8;
use crate::object::{
    optional, Attribute, AttributeModel, Dataspace, DataspaceModel, FilterInfo, FilterModel,
    FilterPipeline, LayoutInfo, LayoutModel,
};
use crate::utf8::{as_text, find_nul, nul_from, utf8_text};

verus! {

/// The extents of a dataset: current ones, and largest ones where they are given.
#[derive(Debug)]
pub struct DataspaceInfo {
    pub dims: Vec<u64>,
    pub max_dims: Option<Vec<u64>>,
}

/// A [`DataspaceInfo`] as a mathematical value.
pub struct ExtentModel {
    pub dims: Seq<u64>,
    pub max_dims: Option<Seq<u64>>,
}

impl View for DataspaceInfo {
    type V = ExtentModel;

    open spec fn view(&self) -> ExtentModel {
        ExtentModel { dims: self.dims@, max_dims: optional(self.max_dims) }
    }
}

/// The type of a dataset's elements.
#[derive(Debug)]
pub struct DatatypeInfo {
    pub dtype: Dtype,
}

impl View for DatatypeInfo {
    type V = DtypeModel;

    open spec fn view(&self) -> DtypeModel {
        self.dtype@
    }
}

/// The addresses of a group's B-tree and local heap.
#[derive(Debug, Clone, Copy)]
pub struct SymbolTableInfo {
    pub btree_address: u64,
    pub heap_address: u64,
}

fn short(what: &str) -> (r: OxiH5Error)
    ensures
        r@ == ErrorKind::Format,
{
    OxiH5Error::Format(text(&[what, " message is truncated"]))
}

/// `n` 8-byte numbers from `pos` on.
pub open spec fn numbers_at(s: Seq<u8>, pos: int, n: nat) -> Seq<u64> {
    Seq::new(n, |i: int| le_at(s, pos + i * 8, 8) as u64)
}

fn read_numbers(data: &[u8], pos: usize, n: usize) -> (r: Vec<u64>)
    requires
        pos + n * 8 <= data@.len(),
    ensures
        r@ == numbers_at(data@, pos as int, n as nat),
{
    let mut numbers: Vec<u64> = Vec::new();
    assert(data.len() <= usize::MAX);
    for i in 0..n
        invariant
            pos + n * 8 <= data@.len() <= usize::MAX,
            numbers@ == numbers_at(data@, pos as int, i as nat),
    {
        numbers.push(get_u64(data, pos + i * 8));
        proof {
            assert(numbers@ =~= numbers_at(data@, pos as int, (i + 1) as nat));
        }
    }
    numbers
}

/// The extents in a dataspace message: its version, the number of dimensions, flags;
/// from 8 on, or from 4 on in version 2, the extents, and where the flags say so the
/// largest ones.
pub open spec fn dataspace_in(data: Seq<u8>) -> Result<ExtentModel, ErrorKind> {
    if data.len() < 4 || (data[0] != 1 && data[0] != 2) {
        Err(ErrorKind::Format)
    } else {
        let n = data[1] as nat;
        let from: int = if data[0] == 1 {
            8
        } else {
            4
        };
        let maximal = data[2] % 2 == 1;
        let end = from + n * (if maximal {
            16int
        } else {
            8
        });
        if data.len() < end {
            Err(ErrorKind::Format)
        } else {
            Ok(
                ExtentModel {
                    dims: numbers_at(data, from, n),
                    max_dims: if maximal {
                        Some(numbers_at(data, from + n * 8, n))
                    } else {
                        None
                    },
                },
            )
        }
    }
}

/// Read a dataspace message.
pub fn parse_dataspace(data: &[u8]) -> (r: Result<DataspaceInfo, OxiH5Error>)
    ensures
        outcome(r) == dataspace_in(data@),
{
    if data.len() < 4 {
        return Err(short("dataspace"));
    }
    let version: u8 = data[0];
    if version != 1 && version != 2 {
        return Err(
            OxiH5Error::Format(text(&["unsupported dataspace version ", &version.to_string()])),
        );
    }
    let n: usize = data[1] as usize;
    let from: usize = if version == 1 {
        8
    } else {
        4
    };
    let maximal: bool = data[2] % 2 == 1;
    let wide: usize = if maximal {
        16
    } else {
        8
    };
    if data.len() < from + n * wide {
        return Err(short("dataspace"));
    }
    let dims: Vec<u64> = read_numbers(data, from, n);
    let max_dims: Option<Vec<u64>> = if maximal {
        Some(read_numbers(data, from + n * 8, n))
    } else {
        None
    };
    Ok(DataspaceInfo { dims, max_dims })
}

/// What a dataspace message describes: without dimensions a single element, or none
/// where version 2 says so.
pub open spec fn space_in(data: Seq<u8>) -> Result<DataspaceModel, ErrorKind> {
    match dataspace_in(data) {
        Err(kind) => Err(kind),
        Ok(extent) => if data[0] == 2 && data[3] == 2 {
            Ok(DataspaceModel::Null)
        } else if extent.dims.len() == 0 {
            Ok(DataspaceModel::Scalar)
        } else {
            Ok(DataspaceModel::Simple { dims: extent.dims, max_dims: extent.max_dims })
        },
    }
}

/// Read what a dataspace message describes.
pub fn parse_space(data: &[u8]) -> (r: Result<Dataspace, OxiH5Error>)
    ensures
        outcome(r) == space_in(data@),
{
    let extent: DataspaceInfo = parse_dataspace(data)?;
    if data[0] == 2 && data[3] == 2 {
        Ok(Dataspace::Null)
    } else if extent.dims.len() == 0 {
        Ok(Dataspace::Scalar)
    } else {
        Ok(Dataspace::Simple { dims: extent.dims, max_dims: extent.max_dims })
    }
}

/// Read a datatype message.
pub fn parse_datatype(data: &[u8]) -> (r: Result<DatatypeInfo, OxiH5Error>)
    ensures
        outcome(r) == datatype_in(data@),
{
    let dtype: Dtype = parse_dtype(data)?;
    Ok(DatatypeInfo { dtype })
}

/// Read a symbol table message.
pub fn parse_symbol_table(data: &[u8]) -> (r: Result<SymbolTableInfo, OxiH5Error>)
    ensures
        match r {
            Ok(info) => {
                &&& data@.len() >= 16
                &&& info.btree_address == le_at(data@, 0, 8)
                &&& info.heap_address == le_at(data@, 8, 8)
            },
            Err(e) => data@.len() < 16 && e@ == ErrorKind::Format,
        },
{
    if data.len() < 16 {
        return Err(short("symbol table"));
    }
    Ok(SymbolTableInfo { btree_address: get_u64(data, 0), heap_address: get_u64(data, 8) })
}

/// `n` numbers of `width` bytes from `pos` on.
pub open spec fn narrow_numbers_at(s: Seq<u8>, pos: int, n: nat, width: nat) -> Seq<u64> {
    Seq::new(n, |i: int| le_at(s, pos + i * width, width) as u64)
}

fn read_narrow_numbers(data: &[u8], pos: usize, n: usize, width: usize) -> (r: Vec<u64>)
    requires
        width <= 8,
        n <= 255,
        pos + n * width <= data@.len(),
    ensures
        r@ == narrow_numbers_at(data@, pos as int, n as nat, width as nat),
{
    let mut numbers: Vec<u64> = Vec::new();
    assert(data.len() <= usize::MAX);
    for i in 0..n
        invariant
            width <= 8,
            pos + n * width <= data@.len() <= usize::MAX,
            numbers@ == narrow_numbers_at(data@, pos as int, i as nat, width as nat),
    {
        proof {
            assert(i * width + width <= n * width) by (nonlinear_arith)
                requires
                    0 <= i < n,
                    width >= 0,
            ;
            assert(i * width >= 0) by (nonlinear_arith)
                requires
                    i >= 0,
                    width >= 0,
            ;
        }
        numbers.push(get_le(data, pos + i * width, width));
        proof {
            assert(numbers@ =~= narrow_numbers_at(
                data@,
                pos as int,
                (i + 1) as nat,
                width as nat,
            ));
        }
    }
    numbers
}

/// The chunked layout in a version 4 message: flags, the number of dimensions, the
/// width of an extent, the extents, the type of the index, what that type needs, the
/// index's address.
pub open spec fn chunked_v4_in(data: Seq<u8>) -> Result<LayoutModel, ErrorKind> {
    if data.len() < 5 {
        Err(ErrorKind::Format)
    } else {
        let n = data[3] as nat;
        let width = data[4] as nat;
        let at = 5 + n * width;
        if width == 0 || width > 8 || data.len() < at + 1 {
            Err(ErrorKind::Format)
        } else {
            let kind = data[at as int];
            if kind == 1 || kind == 2 {
                Err(ErrorKind::NotImplemented)
            } else if kind < 3 || kind > 5 {
                Err(ErrorKind::Format)
            } else {
                let gap: int = if kind == 3 {
                    1
                } else if kind == 4 {
                    5
                } else {
                    6
                };
                if data.len() < at + 1 + gap + 8 {
                    Err(ErrorKind::Format)
                } else {
                    Ok(
                        LayoutModel::Chunked {
                            data_address: le_at(data, at + 1 + gap, 8) as u64,
                            dimensionality: data[3],
                            chunk_dims: narrow_numbers_at(data, 5, n, width),
                            index_type: (kind - 2) as u8,
                        },
                    )
                }
            }
        }
    }
}

/// The layout in a message of version 3 or 4.
pub open spec fn layout_in(data: Seq<u8>) -> Result<LayoutModel, ErrorKind> {
    if data.len() < 2 {
        Err(ErrorKind::Format)
    } else if data[0] != 3 && data[0] != 4 {
        Err(ErrorKind::UnsupportedLayout(data[0]))
    } else if data[1] == 0 {
        if data.len() < 4 || data.len() < 4 + le_at(data, 2, 2) {
            Err(ErrorKind::Format)
        } else {
            Ok(LayoutModel::Compact { data: data.subrange(4, 4 + le_at(data, 2, 2) as int) })
        }
    } else if data[1] == 1 {
        if data.len() < 18 {
            Err(ErrorKind::Format)
        } else {
            Ok(
                LayoutModel::Contiguous {
                    data_address: le_at(data, 2, 8) as u64,
                    data_size: le_at(data, 10, 8) as u64,
                },
            )
        }
    } else if data[1] == 2 && data[0] == 3 {
        if data.len() < 11 || data.len() < 11 + data[2] * 4 {
            Err(ErrorKind::Format)
        } else {
            Ok(
                LayoutModel::Chunked {
                    data_address: le_at(data, 3, 8) as u64,
                    dimensionality: data[2],
                    chunk_dims: narrow_numbers_at(data, 11, data[2] as nat, 4),
                    index_type: 0,
                },
            )
        }
    } else if data[1] == 2 {
        chunked_v4_in(data)
    } else if data[1] == 3 && data[0] == 4 {
        if data.len() < 14 {
            Err(ErrorKind::Format)
        } else {
            Ok(
                LayoutModel::VirtualDataset {
                    heap_address: le_at(data, 2, 8) as u64,
                    heap_index: le_at(data, 10, 4) as u32,
                },
            )
        }
    } else {
        Err(ErrorKind::UnsupportedLayout(data[1]))
    }
}

fn parse_chunked_v4(data: &[u8]) -> (r: Result<LayoutInfo, OxiH5Error>)
    ensures
        outcome(r) == chunked_v4_in(data@),
{
    if data.len() < 5 {
        return Err(short("layout"));
    }
    let n: usize = data[3] as usize;
    let width: usize = data[4] as usize;
    if width == 0 || width > 8 {
        return Err(OxiH5Error::Format("chunk extents of no usable width".to_string()));
    }
    proof {
        assert(0 <= n * width <= 255 * 8) by (nonlinear_arith)
            requires
                0 <= n <= 255,
                0 <= width <= 8,
        ;
    }
    let at: usize = 5 + n * width;
    if data.len() < at + 1 {
        return Err(short("layout"));
    }
    let index: u8 = data[at];
    let gap: usize = match index {
        1 | 2 => {
            return Err(
                OxiH5Error::NotImplemented(
                    text(&["chunk index of type ", &index.to_string()]),
                ),
            );
        },
        3 => 1,
        4 => 5,
        5 => 6,
        _ => {
            return Err(
                OxiH5Error::Format(text(&["unknown chunk index type ", &index.to_string()])),
            );
        },
    };
    if data.len() < at + 1 + gap + 8 {
        return Err(short("layout"));
    }
    Ok(
        LayoutInfo::Chunked {
            data_address: get_u64(data, at + 1 + gap),
            dimensionality: data[3],
            chunk_dims: read_narrow_numbers(data, 5, n, width),
            index_type: index - 2,
        },
    )
}

/// Read a layout message.
pub fn parse_layout(data: &[u8]) -> (r: Result<LayoutInfo, OxiH5Error>)
    ensures
        outcome(r) == layout_in(data@),
{
    if data.len() < 2 {
        return Err(short("layout"));
    }
    let version: u8 = data[0];
    let class: u8 = data[1];
    if version != 3 && version != 4 {
        return Err(OxiH5Error::UnsupportedLayout(version));
    }
    if class == 0 {
        if data.len() < 4 {
            return Err(short("layout"));
        }
        let n: usize = get_u16(data, 2) as usize;
        if data.len() < 4 + n {
            return Err(short("layout"));
        }
        Ok(LayoutInfo::Compact { data: copy_range(data, 4, 4 + n) })
    } else if class == 1 {
        if data.len() < 18 {
            return Err(short("layout"));
        }
        Ok(
            LayoutInfo::Contiguous {
                data_address: get_u64(data, 2),
                data_size: get_u64(data, 10),
            },
        )
    } else if class == 2 && version == 3 {
        if data.len() < 11 {
            return Err(short("layout"));
        }
        let n: usize = data[2] as usize;
        if data.len() < 11 + n * 4 {
            return Err(short("layout"));
        }
        Ok(
            LayoutInfo::Chunked {
                data_address: get_u64(data, 3),
                dimensionality: data[2],
                chunk_dims: read_narrow_numbers(data, 11, n, 4),
                index_type: 0,
            },
        )
    } else if class == 2 {
        parse_chunked_v4(data)
    } else if class == 3 && version == 4 {
        if data.len() < 14 {
            return Err(short("layout"));
        }
        Ok(
            LayoutInfo::VirtualDataset {
                heap_address: get_u64(data, 2),
                heap_index: get_u32(data, 10),
            },
        )
    } else {
        Err(OxiH5Error::UnsupportedLayout(class))
    }
}

/// The bytes whose number is in the four bytes at `at`, before them.
pub open spec fn counted_bytes(data: Seq<u8>, at: int) -> Result<Seq<u8>, ErrorKind> {
    if at + 4 > data.len() || at + 4 + le_at(data, at, 4) > data.len() {
        Err(ErrorKind::Format)
    } else {
        Ok(data.subrange(at + 4, at + 4 + le_at(data, at, 4)))
    }
}

/// The fill value that a message body gives; empty where it gives none.
///
/// Versions 1 and 2 are the version, two bytes on when it is used, whether there is a
/// value, and the value. Version 3 is the version, flags, of which the sixth says whether
/// there is a value, and the value. A value is its length (4 bytes) and its bytes.
pub open spec fn fill_value_in(data: Seq<u8>) -> Result<Seq<u8>, ErrorKind> {
    if data.len() < 2 {
        Err(ErrorKind::Format)
    } else if data[0] == 1 || data[0] == 2 {
        if data.len() < 4 {
            Err(ErrorKind::Format)
        } else if data[3] == 0 {
            Ok(Seq::empty())
        } else {
            counted_bytes(data, 4)
        }
    } else if data[0] == 3 {
        if data[1] / 32 % 2 == 0 {
            Ok(Seq::empty())
        } else {
            counted_bytes(data, 2)
        }
    } else {
        Err(ErrorKind::Format)
    }
}

fn read_counted(data: &[u8], at: usize) -> (r: Result<Vec<u8>, OxiH5Error>)
    requires
        at <= data@.len(),
    ensures
        match (r, counted_bytes(data@, at as int)) {
            (Ok(a), Ok(b)) => a@ == b,
            (Err(e), Err(kind)) => e@ == kind,
            _ => false,
        },
{
    assert(data.len() <= usize::MAX);
    if data.len() - at < 4 {
        return Err(short("fill value"));
    }
    let size: u32 = get_u32(data, at);
    if size as u64 > (data.len() - at - 4) as u64 {
        return Err(short("fill value"));
    }
    Ok(crate::bytes::copy_range(data, at + 4, at + 4 + size as usize))
}

/// Parse a fill value message; without bytes, it gives no value.
pub fn parse_fill_value(data: &[u8]) -> (r: Result<Vec<u8>, OxiH5Error>)
    ensures
        match (r, fill_value_in(data@)) {
            (Ok(a), Ok(b)) => a@ == b,
            (Err(e), Err(kind)) => e@ == kind,
            _ => false,
        },
{
    if data.len() < 2 {
        return Err(short("fill value"));
    }
    let none: Vec<u8> = Vec::new();
    proof {
        assert(none@ =~= Seq::empty());
    }
    if data[0] == 1 || data[0] == 2 {
        if data.len() < 4 {
            return Err(short("fill value"));
        }
        if data[3] == 0 {
            return Ok(none);
        }
        read_counted(data, 4)
    } else if data[0] == 3 {
        if data[1] / 32 % 2 == 0 {
            return Ok(none);
        }
        read_counted(data, 2)
    } else {
        Err(
            OxiH5Error::Format(text(&["unsupported fill value version ", &data[0].to_string()])),
        )
    }
}

/// The text of a name field, up to a zero byte; none where the field has no bytes.
pub open spec fn field_name(field: Seq<u8>) -> Result<Option<Seq<char>>, ErrorKind> {
    if field.len() == 0 {
        Ok(None)
    } else {
        match utf8_text(field.subrange(0, nul_from(field, 0))) {
            Some(name) => Ok(Some(name)),
            None => Err(ErrorKind::Format),
        }
    }
}

/// How a filter's description starts: the bytes before its name, the bytes of its
/// name, its flags and the number of its client values. Version 2 gives no name to
/// the filters that the format defines.
pub open spec fn filter_head(s: Seq<u8>, pos: int, version: u8) -> (int, nat, u16, nat) {
    if version == 2 && le_at(s, pos, 2) < 256 {
        (6, 0, le_at(s, pos + 2, 2) as u16, le_at(s, pos + 4, 2))
    } else {
        (8, le_at(s, pos + 2, 2), le_at(s, pos + 4, 2) as u16, le_at(s, pos + 6, 2))
    }
}

/// The filter at `pos`, and where its description ends. Version 1 pads the name to a
/// multiple of 8 and the client values to an even number.
pub open spec fn filter_at(s: Seq<u8>, pos: int, version: u8) -> Result<
    (FilterModel, int),
    ErrorKind,
> {
    if pos + 6 > s.len() || (pos + 8 > s.len() && (version == 1 || le_at(s, pos, 2) >= 256)) {
        Err(ErrorKind::Format)
    } else {
        let (head, name_len, flags, count) = filter_head(s, pos, version);
        let from = pos + head + (if version == 1 {
            align8(name_len as int)
        } else {
            name_len as int
        });
        let end = from + count * 4 + (if version == 1 && count % 2 == 1 {
            4int
        } else {
            0
        });
        if end > s.len() {
            Err(ErrorKind::Format)
        } else {
            match field_name(s.subrange(pos + head, pos + head + name_len)) {
                Err(kind) => Err(kind),
                Ok(name) => Ok(
                    (
                        FilterModel {
                            id: le_at(s, pos, 2) as u16,
                            name,
                            flags,
                            client_data: Seq::new(
                                count,
                                |i: int| le_at(s, from + i * 4, 4) as u32,
                            ),
                        },
                        end,
                    ),
                ),
            }
        }
    }
}

/// `n` filters from `pos` on, and where they end.
pub open spec fn filters_at(s: Seq<u8>, pos: int, n: nat, version: u8) -> Result<
    (Seq<FilterModel>, int),
    ErrorKind,
>
    decreases n,
{
    if n == 0 {
        Ok((Seq::empty(), pos))
    } else {
        match filters_at(s, pos, (n - 1) as nat, version) {
            Err(kind) => Err(kind),
            Ok((front, at)) => match filter_at(s, at, version) {
                Err(kind) => Err(kind),
                Ok((filter, end)) => Ok((front.push(filter), end)),
            },
        }
    }
}

/// The filters in a pipeline message; none in one of an unknown version.
pub open spec fn pipeline_in(data: Seq<u8>) -> Result<Seq<FilterModel>, ErrorKind> {
    if data.len() < 2 {
        Err(ErrorKind::Format)
    } else if data[0] != 1 && data[0] != 2 {
        Ok(Seq::empty())
    } else {
        let from = if data[0] == 1 {
            8int
        } else {
            2
        };
        if data.len() < from {
            Err(ErrorKind::Format)
        } else {
            match filters_at(data, from, data[1] as nat, data[0]) {
                Err(kind) => Err(kind),
                Ok((filters, _)) => Ok(filters),
            }
        }
    }
}

fn read_field_name(field: &[u8]) -> (r: Result<Option<String>, OxiH5Error>)
    ensures
        match (r, field_name(field@)) {
            (Ok(Some(name)), Ok(Some(chars))) => name@ == chars,
            (Ok(None), Ok(None)) => true,
            (Err(e), Err(kind)) => e@ == kind,
            _ => false,
        },
{
    if field.len() == 0 {
        return Ok(None);
    }
    let end: usize = find_nul(field, 0);
    match as_text(vstd::slice::slice_subrange(field, 0, end)) {
        Some(name) => Ok(Some(name.to_string())),
        None => Err(OxiH5Error::Format("a name is not valid UTF-8".to_string())),
    }
}

fn read_filter(data: &[u8], pos: usize, version: u8) -> (r: Result<
    (FilterInfo, usize),
    OxiH5Error,
>)
    requires
        pos <= data@.len(),
        version == 1 || version == 2,
    ensures
        match (r, filter_at(data@, pos as int, version)) {
            (Ok((filter, end)), Ok((model, at))) => filter@ == model && end == at && end
                <= data@.len(),
            (Err(e), Err(kind)) => e@ == kind,
            _ => false,
        },
{
    let left: usize = data.len() - pos;
    if left < 6 {
        return Err(short("filter pipeline"));
    }
    let id: u16 = get_u16(data, pos);
    let named: bool = version == 1 || id >= 256;
    if named && left < 8 {
        return Err(short("filter pipeline"));
    }
    let head: usize = if named {
        8
    } else {
        6
    };
    let name_len: usize = if named {
        get_u16(data, pos + 2) as usize
    } else {
        0
    };
    let flags: u16 = get_u16(data, pos + head - 4);
    let count: usize = get_u16(data, pos + head - 2) as usize;
    let stored: usize = if version == 1 {
        (name_len + 7) / 8 * 8
    } else {
        name_len
    };
    let pad: usize = if version == 1 && count % 2 == 1 {
        4
    } else {
        0
    };
    if left < head + stored + count * 4 + pad {
        return Err(short("filter pipeline"));
    }
    assert(data.len() <= usize::MAX);
    let from: usize = pos + head + stored;
    let name: Option<String> = read_field_name(
        vstd::slice::slice_subrange(data, pos + head, pos + head + name_len),
    )?;
    let mut client_data: Vec<u32> = Vec::new();
    for i in 0..count
        invariant
            count <= 65535,
            from + count * 4 <= data@.len() <= usize::MAX,
            client_data@.len() == i,
            forall|k: int|
                0 <= k < i ==> #[trigger] client_data@[k] == le_at(data@, from + k * 4, 4) as u32,
    {
        client_data.push(get_u32(data, from + i * 4));
    }
    let filter = FilterInfo { id, name, flags, client_data };
    proof {
        assert(filter@.client_data =~= Seq::new(
            count as nat,
            |i: int| le_at(data@, from + i * 4, 4) as u32,
        ));
    }
    Ok((filter, from + count * 4 + pad))
}

proof fn lemma_filters_fail(s: Seq<u8>, pos: int, k: nat, n: nat, version: u8)
    requires
        k <= n,
        filters_at(s, pos, k, version) is Err,
    ensures
        filters_at(s, pos, n, version) == filters_at(s, pos, k, version),
    decreases n,
{
    if k < n {
        lemma_filters_fail(s, pos, k, (n - 1) as nat, version);
    }
}

/// Read a filter pipeline message.
pub fn parse_filter_pipeline(data: &[u8]) -> (r: Result<FilterPipeline, OxiH5Error>)
    ensures
        match (r, pipeline_in(data@)) {
            (Ok(pipeline), Ok(filters)) => views(pipeline.filters@) == filters,
            (Err(e), Err(kind)) => e@ == kind,
            _ => false,
        },
{
    if data.len() < 2 {
        return Err(short("filter pipeline"));
    }
    let version: u8 = data[0];
    let mut filters: Vec<FilterInfo> = Vec::new();
    proof {
        assert(views(filters@) =~= Seq::empty());
    }
    if version != 1 && version != 2 {
        return Ok(FilterPipeline { filters });
    }
    let from: usize = if version == 1 {
        8
    } else {
        2
    };
    if data.len() < from {
        return Err(short("filter pipeline"));
    }
    let n: usize = data[1] as usize;
    let mut at: usize = from;
    for i in 0..n
        invariant
            version == 1 || version == 2,
            version == data@[0],
            n == data@[1],
            data@.len() >= 2,
            from == if data@[0] == 1 {
                8int
            } else {
                2
            },
            from <= data@.len(),
            at <= data@.len(),
            filters_at(data@, from as int, i as nat, version) == Ok::<
                (Seq<FilterModel>, int),
                ErrorKind,
            >((views(filters@), at as int)),
    {
        let ghost front = views(filters@);
        match read_filter(data, at, version) {
            Err(e) => {
                proof {
                    lemma_filters_fail(data@, from as int, (i + 1) as nat, n as nat, version);
                }
                return Err(e);
            },
            Ok((filter, end)) => {
                filters.push(filter);
                at = end;
                proof {
                    assert(views(filters@) =~= front.push(filter@));
                }
            },
        }
    }
    Ok(FilterPipeline { filters })
}

/// Where the parts of an attribute message start: name, datatype, dataspace, data.
/// Version 1 pads each but the last to a multiple of 8; version 3 has one more byte
/// before them.
pub open spec fn attribute_parts(data: Seq<u8>) -> (int, int, int, int) {
    let name: int = if data[0] == 3 {
        9
    } else {
        8
    };
    let dtype = name + stored_part(data[0], le_at(data, 2, 2));
    let space = dtype + stored_part(data[0], le_at(data, 4, 2));
    (name, dtype, space, space + stored_part(data[0], le_at(data, 6, 2)))
}

/// The bytes that a part of an attribute message takes.
pub open spec fn stored_part(version: u8, len: nat) -> int {
    if version == 1 {
        align8(len as int)
    } else {
        len as int
    }
}

/// The attribute in a message: the version, flags, the sizes of the name, the datatype
/// and the dataspace; these three; the data.
pub open spec fn attribute_in(data: Seq<u8>) -> Result<AttributeModel, ErrorKind> {
    if data.len() < 8 || data[0] < 1 || data[0] > 3 {
        Err(ErrorKind::Format)
    } else {
        let (name_at, dtype_at, space_at, data_at) = attribute_parts(data);
        if data.len() < data_at {
            Err(ErrorKind::Format)
        } else {
            let field = data.subrange(name_at, name_at + le_at(data, 2, 2));
            match utf8_text(field.subrange(0, nul_from(field, 0))) {
                None => Err(ErrorKind::Format),
                Some(name) => match datatype_in(
                    data.subrange(dtype_at, dtype_at + le_at(data, 4, 2)),
                ) {
                    Err(kind) => Err(kind),
                    Ok(dtype) => match space_in(
                        data.subrange(space_at, space_at + le_at(data, 6, 2)),
                    ) {
                        Err(kind) => Err(kind),
                        Ok(dataspace) => Ok(
                            AttributeModel {
                                name,
                                dtype,
                                dataspace,
                                data: data.subrange(data_at, data.len() as int),
                            },
                        ),
                    },
                },
            }
        }
    }
}

fn part_len(version: u8, len: usize) -> (r: usize)
    requires
        len <= 65535,
    ensures
        r == stored_part(version, len as nat),
        len <= r <= 65536,
{
    if version == 1 {
        (len + 7) / 8 * 8
    } else {
        len
    }
}

/// Read an attribute message.
pub fn parse_attribute(data: &[u8]) -> (r: Result<Attribute, OxiH5Error>)
    ensures
        outcome(r) == attribute_in(data@),
{
    if data.len() < 8 {
        return Err(short("attribute"));
    }
    let version: u8 = data[0];
    if version < 1 || version > 3 {
        return Err(
            OxiH5Error::Format(text(&["unsupported attribute version ", &version.to_string()])),
        );
    }
    let name_len: usize = get_u16(data, 2) as usize;
    let dtype_len: usize = get_u16(data, 4) as usize;
    let space_len: usize = get_u16(data, 6) as usize;
    let name_at: usize = if version == 3 {
        9
    } else {
        8
    };
    let dtype_at: usize = name_at + part_len(version, name_len);
    let space_at: usize = dtype_at + part_len(version, dtype_len);
    let data_at: usize = space_at + part_len(version, space_len);
    if data.len() < data_at {
        return Err(short("attribute"));
    }
    let field = vstd::slice::slice_subrange(data, name_at, name_at + name_len);
    let end: usize = find_nul(field, 0);
    let name: String = match as_text(vstd::slice::slice_subrange(field, 0, end)) {
        Some(name) => name.to_string(),
        None => {
            return Err(OxiH5Error::Format("attribute name is not valid UTF-8".to_string()));
        },
    };
    let dtype: Dtype = parse_dtype(
        vstd::slice::slice_subrange(data, dtype_at, dtype_at + dtype_len),
    )?;
    let dataspace: Dataspace = parse_space(
        vstd::slice::slice_subrange(data, space_at, space_at + space_len),
    )?;
    Ok(Attribute { name, dtype, dataspace, data: copy_range(data, data_at, data.len()) })
}

} // verus!
