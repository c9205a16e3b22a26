//! CRC-16 with the polynomial 0x8005 (x^16 + x^15 + x^2 + 1), reflected,
//! starting from 0.
//!
//! The checksum is defined bit by bit, as the shift register that divides by
//! the polynomial. The code looks eight steps of it up in a table; the table
//! is proved to hold what the definition says.
use vstd::prelude::*;

verus! {

/// Eight steps of the shift register, for each value of the low byte.
pub const CRC16_TABLE: [u16; 256] = [
    0x0000, 0xC0C1, 0xC181, 0x0140, 0xC301, 0x03C0, 0x0280, 0xC241,
    0xC601, 0x06C0, 0x0780, 0xC741, 0x0500, 0xC5C1, 0xC481, 0x0440,
    0xCC01, 0x0CC0, 0x0D80, 0xCD41, 0x0F00, 0xCFC1, 0xCE81, 0x0E40,
    0x0A00, 0xCAC1, 0xCB81, 0x0B40, 0xC901, 0x09C0, 0x0880, 0xC841,
    0xD801, 0x18C0, 0x1980, 0xD941, 0x1B00, 0xDBC1, 0xDA81, 0x1A40,
    0x1E00, 0xDEC1, 0xDF81, 0x1F40, 0xDD01, 0x1DC0, 0x1C80, 0xDC41,
    0x1400, 0xD4C1, 0xD581, 0x1540, 0xD701, 0x17C0, 0x1680, 0xD641,
    0xD201, 0x12C0, 0x1380, 0xD341, 0x1100, 0xD1C1, 0xD081, 0x1040,
    0xF001, 0x30C0, 0x3180, 0xF141, 0x3300, 0xF3C1, 0xF281, 0x3240,
    0x3600, 0xF6C1, 0xF781, 0x3740, 0xF501, 0x35C0, 0x3480, 0xF441,
    0x3C00, 0xFCC1, 0xFD81, 0x3D40, 0xFF01, 0x3FC0, 0x3E80, 0xFE41,
    0xFA01, 0x3AC0, 0x3B80, 0xFB41, 0x3900, 0xF9C1, 0xF881, 0x3840,
    0x2800, 0xE8C1, 0xE981, 0x2940, 0xEB01, 0x2BC0, 0x2A80, 0xEA41,
    0xEE01, 0x2EC0, 0x2F80, 0xEF41, 0x2D00, 0xEDC1, 0xEC81, 0x2C40,
    0xE401, 0x24C0, 0x2580, 0xE541, 0x2700, 0xE7C1, 0xE681, 0x2640,
    0x2200, 0xE2C1, 0xE381, 0x2340, 0xE101, 0x21C0, 0x2080, 0xE041,
    0xA001, 0x60C0, 0x6180, 0xA141, 0x6300, 0xA3C1, 0xA281, 0x6240,
    0x6600, 0xA6C1, 0xA781, 0x6740, 0xA501, 0x65C0, 0x6480, 0xA441,
    0x6C00, 0xACC1, 0xAD81, 0x6D40, 0xAF01, 0x6FC0, 0x6E80, 0xAE41,
    0xAA01, 0x6AC0, 0x6B80, 0xAB41, 0x6900, 0xA9C1, 0xA881, 0x6840,
    0x7800, 0xB8C1, 0xB981, 0x7940, 0xBB01, 0x7BC0, 0x7A80, 0xBA41,
    0xBE01, 0x7EC0, 0x7F80, 0xBF41, 0x7D00, 0xBDC1, 0xBC81, 0x7C40,
    0xB401, 0x74C0, 0x7580, 0xB541, 0x7700, 0xB7C1, 0xB681, 0x7640,
    0x7200, 0xB2C1, 0xB381, 0x7340, 0xB101, 0x71C0, 0x7080, 0xB041,
    0x5000, 0x90C1, 0x9181, 0x5140, 0x9301, 0x53C0, 0x5280, 0x9241,
    0x9601, 0x56C0, 0x5780, 0x9741, 0x5500, 0x95C1, 0x9481, 0x5440,
    0x9C01, 0x5CC0, 0x5D80, 0x9D41, 0x5F00, 0x9FC1, 0x9E81, 0x5E40,
    0x5A00, 0x9AC1, 0x9B81, 0x5B40, 0x9901, 0x59C0, 0x5880, 0x9841,
    0x8801, 0x48C0, 0x4980, 0x8941, 0x4B00, 0x8BC1, 0x8A81, 0x4A40,
    0x4E00, 0x8EC1, 0x8F81, 0x4F40, 0x8D01, 0x4DC0, 0x4C80, 0x8C41,
    0x4400, 0x84C1, 0x8581, 0x4540, 0x8701, 0x47C0, 0x4680, 0x8641,
    0x8201, 0x42C0, 0x4380, 0x8341, 0x4100, 0x81C1, 0x8081, 0x4040,
];

/// One step of the shift register: the state moves right by one bit and,
/// if the bit that left was set, the reflected polynomial is added.
pub open spec fn crc_shift(c: u16) -> u16 {
    if c & 1 == 1 {
        (c >> 1) ^ 0xA001
    } else {
        c >> 1
    }
}

/// Eight steps of the shift register.
pub open spec fn crc_byte(c: u16) -> u16 {
    crc_shift(crc_shift(crc_shift(crc_shift(crc_shift(crc_shift(crc_shift(crc_shift(c))))))))
}

/// The checksum after one more byte of data.
pub open spec fn crc16_update(crc: u16, data: u8) -> u16 {
    crc_byte(crc ^ (data as u16))
}

/// The checksum after the bytes of `data`, one after the other, starting from `crc`.
pub open spec fn crc16_from(crc: u16, data: Seq<u8>) -> u16
    decreases data.len(),
{
    if data.len() == 0 {
        crc
    } else {
        crc16_update(crc16_from(crc, data.drop_last()), data.last())
    }
}

/// The checksum of `data`.
pub open spec fn crc16(data: Seq<u8>) -> u16 {
    crc16_from(0, data)
}

/// Each entry of the table is eight steps of the shift register from its index.
pub proof fn lemma_table_entry(i: u8)
    ensures
        CRC16_TABLE[i as int] == crc_byte(i as u16),
{
    let entry = CRC16_TABLE[i as int];
    assert(entry == crc_byte(i as u16)) by (bit_vector)
        requires
            i == 0 ==> entry == 0x0000,
            i == 1 ==> entry == 0xC0C1,
            i == 2 ==> entry == 0xC181,
            i == 3 ==> entry == 0x0140,
            i == 4 ==> entry == 0xC301,
            i == 5 ==> entry == 0x03C0,
            i == 6 ==> entry == 0x0280,
            i == 7 ==> entry == 0xC241,
            i == 8 ==> entry == 0xC601,
            i == 9 ==> entry == 0x06C0,
            i == 10 ==> entry == 0x0780,
            i == 11 ==> entry == 0xC741,
            i == 12 ==> entry == 0x0500,
            i == 13 ==> entry == 0xC5C1,
            i == 14 ==> entry == 0xC481,
            i == 15 ==> entry == 0x0440,
            i == 16 ==> entry == 0xCC01,
            i == 17 ==> entry == 0x0CC0,
            i == 18 ==> entry == 0x0D80,
            i == 19 ==> entry == 0xCD41,
            i == 20 ==> entry == 0x0F00,
            i == 21 ==> entry == 0xCFC1,
            i == 22 ==> entry == 0xCE81,
            i == 23 ==> entry == 0x0E40,
            i == 24 ==> entry == 0x0A00,
            i == 25 ==> entry == 0xCAC1,
            i == 26 ==> entry == 0xCB81,
            i == 27 ==> entry == 0x0B40,
            i == 28 ==> entry == 0xC901,
            i == 29 ==> entry == 0x09C0,
            i == 30 ==> entry == 0x0880,
            i == 31 ==> entry == 0xC841,
            i == 32 ==> entry == 0xD801,
            i == 33 ==> entry == 0x18C0,
            i == 34 ==> entry == 0x1980,
            i == 35 ==> entry == 0xD941,
            i == 36 ==> entry == 0x1B00,
            i == 37 ==> entry == 0xDBC1,
            i == 38 ==> entry == 0xDA81,
            i == 39 ==> entry == 0x1A40,
            i == 40 ==> entry == 0x1E00,
            i == 41 ==> entry == 0xDEC1,
            i == 42 ==> entry == 0xDF81,
            i == 43 ==> entry == 0x1F40,
            i == 44 ==> entry == 0xDD01,
            i == 45 ==> entry == 0x1DC0,
            i == 46 ==> entry == 0x1C80,
            i == 47 ==> entry == 0xDC41,
            i == 48 ==> entry == 0x1400,
            i == 49 ==> entry == 0xD4C1,
            i == 50 ==> entry == 0xD581,
            i == 51 ==> entry == 0x1540,
            i == 52 ==> entry == 0xD701,
            i == 53 ==> entry == 0x17C0,
            i == 54 ==> entry == 0x1680,
            i == 55 ==> entry == 0xD641,
            i == 56 ==> entry == 0xD201,
            i == 57 ==> entry == 0x12C0,
            i == 58 ==> entry == 0x1380,
            i == 59 ==> entry == 0xD341,
            i == 60 ==> entry == 0x1100,
            i == 61 ==> entry == 0xD1C1,
            i == 62 ==> entry == 0xD081,
            i == 63 ==> entry == 0x1040,
            i == 64 ==> entry == 0xF001,
            i == 65 ==> entry == 0x30C0,
            i == 66 ==> entry == 0x3180,
            i == 67 ==> entry == 0xF141,
            i == 68 ==> entry == 0x3300,
            i == 69 ==> entry == 0xF3C1,
            i == 70 ==> entry == 0xF281,
            i == 71 ==> entry == 0x3240,
            i == 72 ==> entry == 0x3600,
            i == 73 ==> entry == 0xF6C1,
            i == 74 ==> entry == 0xF781,
            i == 75 ==> entry == 0x3740,
            i == 76 ==> entry == 0xF501,
            i == 77 ==> entry == 0x35C0,
            i == 78 ==> entry == 0x3480,
            i == 79 ==> entry == 0xF441,
            i == 80 ==> entry == 0x3C00,
            i == 81 ==> entry == 0xFCC1,
            i == 82 ==> entry == 0xFD81,
            i == 83 ==> entry == 0x3D40,
            i == 84 ==> entry == 0xFF01,
            i == 85 ==> entry == 0x3FC0,
            i == 86 ==> entry == 0x3E80,
            i == 87 ==> entry == 0xFE41,
            i == 88 ==> entry == 0xFA01,
            i == 89 ==> entry == 0x3AC0,
            i == 90 ==> entry == 0x3B80,
            i == 91 ==> entry == 0xFB41,
            i == 92 ==> entry == 0x3900,
            i == 93 ==> entry == 0xF9C1,
            i == 94 ==> entry == 0xF881,
            i == 95 ==> entry == 0x3840,
            i == 96 ==> entry == 0x2800,
            i == 97 ==> entry == 0xE8C1,
            i == 98 ==> entry == 0xE981,
            i == 99 ==> entry == 0x2940,
            i == 100 ==> entry == 0xEB01,
            i == 101 ==> entry == 0x2BC0,
            i == 102 ==> entry == 0x2A80,
            i == 103 ==> entry == 0xEA41,
            i == 104 ==> entry == 0xEE01,
            i == 105 ==> entry == 0x2EC0,
            i == 106 ==> entry == 0x2F80,
            i == 107 ==> entry == 0xEF41,
            i == 108 ==> entry == 0x2D00,
            i == 109 ==> entry == 0xEDC1,
            i == 110 ==> entry == 0xEC81,
            i == 111 ==> entry == 0x2C40,
            i == 112 ==> entry == 0xE401,
            i == 113 ==> entry == 0x24C0,
            i == 114 ==> entry == 0x2580,
            i == 115 ==> entry == 0xE541,
            i == 116 ==> entry == 0x2700,
            i == 117 ==> entry == 0xE7C1,
            i == 118 ==> entry == 0xE681,
            i == 119 ==> entry == 0x2640,
            i == 120 ==> entry == 0x2200,
            i == 121 ==> entry == 0xE2C1,
            i == 122 ==> entry == 0xE381,
            i == 123 ==> entry == 0x2340,
            i == 124 ==> entry == 0xE101,
            i == 125 ==> entry == 0x21C0,
            i == 126 ==> entry == 0x2080,
            i == 127 ==> entry == 0xE041,
            i == 128 ==> entry == 0xA001,
            i == 129 ==> entry == 0x60C0,
            i == 130 ==> entry == 0x6180,
            i == 131 ==> entry == 0xA141,
            i == 132 ==> entry == 0x6300,
            i == 133 ==> entry == 0xA3C1,
            i == 134 ==> entry == 0xA281,
            i == 135 ==> entry == 0x6240,
            i == 136 ==> entry == 0x6600,
            i == 137 ==> entry == 0xA6C1,
            i == 138 ==> entry == 0xA781,
            i == 139 ==> entry == 0x6740,
            i == 140 ==> entry == 0xA501,
            i == 141 ==> entry == 0x65C0,
            i == 142 ==> entry == 0x6480,
            i == 143 ==> entry == 0xA441,
            i == 144 ==> entry == 0x6C00,
            i == 145 ==> entry == 0xACC1,
            i == 146 ==> entry == 0xAD81,
            i == 147 ==> entry == 0x6D40,
            i == 148 ==> entry == 0xAF01,
            i == 149 ==> entry == 0x6FC0,
            i == 150 ==> entry == 0x6E80,
            i == 151 ==> entry == 0xAE41,
            i == 152 ==> entry == 0xAA01,
            i == 153 ==> entry == 0x6AC0,
            i == 154 ==> entry == 0x6B80,
            i == 155 ==> entry == 0xAB41,
            i == 156 ==> entry == 0x6900,
            i == 157 ==> entry == 0xA9C1,
            i == 158 ==> entry == 0xA881,
            i == 159 ==> entry == 0x6840,
            i == 160 ==> entry == 0x7800,
            i == 161 ==> entry == 0xB8C1,
            i == 162 ==> entry == 0xB981,
            i == 163 ==> entry == 0x7940,
            i == 164 ==> entry == 0xBB01,
            i == 165 ==> entry == 0x7BC0,
            i == 166 ==> entry == 0x7A80,
            i == 167 ==> entry == 0xBA41,
            i == 168 ==> entry == 0xBE01,
            i == 169 ==> entry == 0x7EC0,
            i == 170 ==> entry == 0x7F80,
            i == 171 ==> entry == 0xBF41,
            i == 172 ==> entry == 0x7D00,
            i == 173 ==> entry == 0xBDC1,
            i == 174 ==> entry == 0xBC81,
            i == 175 ==> entry == 0x7C40,
            i == 176 ==> entry == 0xB401,
            i == 177 ==> entry == 0x74C0,
            i == 178 ==> entry == 0x7580,
            i == 179 ==> entry == 0xB541,
            i == 180 ==> entry == 0x7700,
            i == 181 ==> entry == 0xB7C1,
            i == 182 ==> entry == 0xB681,
            i == 183 ==> entry == 0x7640,
            i == 184 ==> entry == 0x7200,
            i == 185 ==> entry == 0xB2C1,
            i == 186 ==> entry == 0xB381,
            i == 187 ==> entry == 0x7340,
            i == 188 ==> entry == 0xB101,
            i == 189 ==> entry == 0x71C0,
            i == 190 ==> entry == 0x7080,
            i == 191 ==> entry == 0xB041,
            i == 192 ==> entry == 0x5000,
            i == 193 ==> entry == 0x90C1,
            i == 194 ==> entry == 0x9181,
            i == 195 ==> entry == 0x5140,
            i == 196 ==> entry == 0x9301,
            i == 197 ==> entry == 0x53C0,
            i == 198 ==> entry == 0x5280,
            i == 199 ==> entry == 0x9241,
            i == 200 ==> entry == 0x9601,
            i == 201 ==> entry == 0x56C0,
            i == 202 ==> entry == 0x5780,
            i == 203 ==> entry == 0x9741,
            i == 204 ==> entry == 0x5500,
            i == 205 ==> entry == 0x95C1,
            i == 206 ==> entry == 0x9481,
            i == 207 ==> entry == 0x5440,
            i == 208 ==> entry == 0x9C01,
            i == 209 ==> entry == 0x5CC0,
            i == 210 ==> entry == 0x5D80,
            i == 211 ==> entry == 0x9D41,
            i == 212 ==> entry == 0x5F00,
            i == 213 ==> entry == 0x9FC1,
            i == 214 ==> entry == 0x9E81,
            i == 215 ==> entry == 0x5E40,
            i == 216 ==> entry == 0x5A00,
            i == 217 ==> entry == 0x9AC1,
            i == 218 ==> entry == 0x9B81,
            i == 219 ==> entry == 0x5B40,
            i == 220 ==> entry == 0x9901,
            i == 221 ==> entry == 0x59C0,
            i == 222 ==> entry == 0x5880,
            i == 223 ==> entry == 0x9841,
            i == 224 ==> entry == 0x8801,
            i == 225 ==> entry == 0x48C0,
            i == 226 ==> entry == 0x4980,
            i == 227 ==> entry == 0x8941,
            i == 228 ==> entry == 0x4B00,
            i == 229 ==> entry == 0x8BC1,
            i == 230 ==> entry == 0x8A81,
            i == 231 ==> entry == 0x4A40,
            i == 232 ==> entry == 0x4E00,
            i == 233 ==> entry == 0x8EC1,
            i == 234 ==> entry == 0x8F81,
            i == 235 ==> entry == 0x4F40,
            i == 236 ==> entry == 0x8D01,
            i == 237 ==> entry == 0x4DC0,
            i == 238 ==> entry == 0x4C80,
            i == 239 ==> entry == 0x8C41,
            i == 240 ==> entry == 0x4400,
            i == 241 ==> entry == 0x84C1,
            i == 242 ==> entry == 0x8581,
            i == 243 ==> entry == 0x4540,
            i == 244 ==> entry == 0x8701,
            i == 245 ==> entry == 0x47C0,
            i == 246 ==> entry == 0x4680,
            i == 247 ==> entry == 0x8641,
            i == 248 ==> entry == 0x8201,
            i == 249 ==> entry == 0x42C0,
            i == 250 ==> entry == 0x4380,
            i == 251 ==> entry == 0x8341,
            i == 252 ==> entry == 0x4100,
            i == 253 ==> entry == 0x81C1,
            i == 254 ==> entry == 0x8081,
            i == 255 ==> entry == 0x4040,
    ;
}

/// Eight steps from any state are the high byte of the state added to
/// eight steps from its low byte.
pub proof fn lemma_update_by_table(crc: u16, data: u8)
    ensures
        crc16_update(crc, data) == (crc >> 8) ^ CRC16_TABLE[(((crc & 0xff) as u8) ^ data) as int],
{
    lemma_table_entry(((crc & 0xff) as u8) ^ data);
    assert(crc_byte(crc ^ (data as u16)) == (crc >> 8) ^ crc_byte(
        (((crc & 0xff) as u8) ^ data) as u16,
    )) by (bit_vector);
}

/// Adds one byte of data to a checksum.
pub fn uxr_update_crc(crc: &mut u16, data: u8)
    ensures
        *final(crc) == crc16_update(*old(crc), data),
{
    proof {
        lemma_update_by_table(*crc, data);
    }
    let low: u8 = (*crc & 0xff) as u8;
    *crc = (*crc >> 8) ^ CRC16_TABLE[(low ^ data) as usize];
}

/// The checksum of a sequence with one more byte is the checksum of the
/// sequence, updated by the byte; and checksums can be taken piece by piece.
pub proof fn lemma_crc16_from_concat(crc: u16, a: Seq<u8>, b: Seq<u8>)
    ensures
        crc16_from(crc, a + b) == crc16_from(crc16_from(crc, a), b),
    decreases b.len(),
{
    if b.len() > 0 {
        lemma_crc16_from_concat(crc, a, b.drop_last());
        assert((a + b).drop_last() =~= a + b.drop_last());
    }
}

/// One step of the shift register takes different states to different states.
proof fn lemma_shift_injective(a: u16, b: u16)
    ensures
        crc_shift(a) == crc_shift(b) ==> a == b,
{
    assert(crc_shift(a) == crc_shift(b) ==> a == b) by (bit_vector);
}

/// Eight steps of the shift register take different states to different states.
proof fn lemma_byte_injective(a: u16, b: u16)
    ensures
        crc_byte(a) == crc_byte(b) ==> a == b,
{
    let a1 = crc_shift(a);
    let b1 = crc_shift(b);
    let a2 = crc_shift(a1);
    let b2 = crc_shift(b1);
    let a3 = crc_shift(a2);
    let b3 = crc_shift(b2);
    let a4 = crc_shift(a3);
    let b4 = crc_shift(b3);
    let a5 = crc_shift(a4);
    let b5 = crc_shift(b4);
    let a6 = crc_shift(a5);
    let b6 = crc_shift(b5);
    let a7 = crc_shift(a6);
    let b7 = crc_shift(b6);
    lemma_shift_injective(a7, b7);
    lemma_shift_injective(a6, b6);
    lemma_shift_injective(a5, b5);
    lemma_shift_injective(a4, b4);
    lemma_shift_injective(a3, b3);
    lemma_shift_injective(a2, b2);
    lemma_shift_injective(a1, b1);
    lemma_shift_injective(a, b);
}

/// Adding the same byte to different states, or different bytes to the same
/// state, gives different states.
proof fn lemma_xor_differs(a: u16, b: u16, x: u8, y: u8)
    ensures
        a != b ==> (a ^ (x as u16)) != (b ^ (x as u16)),
        x != y ==> (a ^ (x as u16)) != (a ^ (y as u16)),
{
    assert(a != b ==> (a ^ (x as u16)) != (b ^ (x as u16))) by (bit_vector);
    assert(x != y ==> (a ^ (x as u16)) != (a ^ (y as u16))) by (bit_vector);
}

/// Different states stay different when the same data follows.
pub proof fn lemma_difference_kept(c1: u16, c2: u16, data: Seq<u8>)
    requires
        c1 != c2,
    ensures
        crc16_from(c1, data) != crc16_from(c2, data),
    decreases data.len(),
{
    if data.len() > 0 {
        lemma_difference_kept(c1, c2, data.drop_last());
        let a = crc16_from(c1, data.drop_last());
        let b = crc16_from(c2, data.drop_last());
        let d = data.last();
        lemma_xor_differs(a, b, d, d);
        lemma_byte_injective(a ^ (d as u16), b ^ (d as u16));
    }
}

/// Two sequences of the same length that differ in exactly one byte have
/// different checksums: an error confined to one byte, a flipped bit among
/// them, never goes unnoticed.
pub proof fn lemma_one_byte_error_detected(a: Seq<u8>, b: Seq<u8>, at: int)
    requires
        a.len() == b.len(),
        0 <= at < a.len(),
        a[at] != b[at],
        forall|j: int| 0 <= j < a.len() && j != at ==> a[j] == b[j],
    ensures
        crc16(a) != crc16(b),
{
    let head = a.subrange(0, at);
    let tail = a.subrange(at + 1, a.len() as int);
    assert(a =~= head + seq![a[at]] + tail);
    assert(b =~= head + seq![b[at]] + tail);
    lemma_crc16_from_concat(0, head + seq![a[at]], tail);
    lemma_crc16_from_concat(0, head + seq![b[at]], tail);
    lemma_crc16_from_concat(0, head, seq![a[at]]);
    lemma_crc16_from_concat(0, head, seq![b[at]]);
    let c = crc16_from(0, head);
    reveal_with_fuel(crc16_from, 2);
    lemma_xor_differs(c, c, a[at], b[at]);
    lemma_byte_injective(c ^ (a[at] as u16), c ^ (b[at] as u16));
    lemma_difference_kept(crc16_update(c, a[at]), crc16_update(c, b[at]), tail);
}

} // verus!
