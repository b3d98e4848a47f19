use png_decode::error::DecodeError;
use png_decode::inflate::decompress_image;
use png_decode::png::read_png;

// 16 by 12 pixels, filter types 0 to 4 in turn, dynamic Huffman codes, data in chunks of 37 bytes.
const GRADIENT_DYNAMIC: [u8; 585] = [
    137, 80, 78, 71, 13, 10, 26, 10, 0, 0, 0, 13, 73, 72, 68, 82,
    0, 0, 0, 16, 0, 0, 0, 12, 8, 2, 0, 0, 0, 228, 133, 170,
    214, 0, 0, 0, 23, 116, 69, 88, 116, 67, 111, 109, 109, 101, 110, 116,
    0, 109, 97, 100, 101, 32, 102, 111, 114, 32, 97, 32, 116, 101, 115, 116,
    226, 233, 245, 244, 0, 0, 0, 37, 73, 68, 65, 84, 120, 218, 141, 145,
    63, 72, 150, 81, 20, 198, 207, 185, 255, 206, 189, 207, 125, 207, 251, 46,
    58, 24, 226, 226, 34, 66, 67, 46, 5, 9, 225, 242, 17, 136, 213, 16,
    14, 130, 114, 0, 244, 0, 0, 0, 37, 73, 68, 65, 84, 73, 75, 184,
    68, 208, 224, 148, 155, 184, 68, 16, 213, 146, 46, 226, 18, 46, 210, 214,
    214, 214, 214, 214, 214, 230, 214, 230, 212, 20, 253, 121, 59, 126, 126, 248,
    145, 136, 28, 55, 174, 28, 0, 0, 0, 37, 73, 68, 65, 84, 67, 112,
    120, 56, 60, 112, 56, 231, 247, 28, 34, 34, 97, 106, 29, 77, 122, 154,
    14, 52, 27, 105, 62, 209, 53, 161, 27, 153, 110, 21, 26, 128, 86, 42,
    221, 111, 104, 131, 37, 166, 8, 0, 0, 0, 37, 73, 68, 65, 84, 77,
    233, 81, 75, 143, 59, 98, 101, 18, 99, 241, 252, 159, 234, 134, 3, 234,
    89, 123, 167, 230, 149, 131, 250, 168, 125, 82, 19, 229, 172, 190, 104, 15,
    181, 170, 220, 168, 225, 88, 10, 40, 0, 0, 0, 37, 73, 68, 65, 84,
    87, 237, 91, 181, 206, 95, 113, 4, 115, 32, 15, 243, 8, 1, 22, 64,
    17, 22, 17, 18, 44, 129, 4, 38, 8, 25, 150, 65, 5, 86, 194, 233,
    73, 142, 133, 157, 176, 61, 54, 232, 183, 0, 0, 0, 37, 73, 68, 65,
    84, 151, 159, 65, 248, 92, 185, 113, 115, 206, 167, 165, 72, 183, 67, 188,
    43, 88, 77, 221, 67, 158, 88, 167, 169, 39, 126, 102, 195, 205, 110, 234,
    220, 86, 115, 245, 121, 183, 90, 238, 232, 125, 0, 0, 0, 37, 73, 68,
    65, 84, 240, 170, 189, 254, 182, 44, 238, 229, 165, 119, 117, 112, 136, 101,
    190, 147, 134, 41, 37, 233, 211, 69, 213, 116, 169, 63, 130, 182, 97, 86,
    99, 104, 139, 202, 99, 104, 43, 124, 82, 248, 59, 0, 0, 0, 37, 73,
    68, 65, 84, 202, 99, 104, 83, 229, 17, 244, 205, 72, 112, 17, 126, 68,
    25, 19, 146, 64, 4, 57, 227, 123, 198, 175, 130, 223, 5, 127, 128, 30,
    248, 91, 97, 21, 212, 132, 179, 63, 220, 170, 85, 248, 0, 0, 0, 37,
    73, 68, 65, 84, 56, 39, 230, 79, 41, 45, 138, 75, 98, 34, 156, 197,
    138, 184, 114, 65, 105, 27, 244, 162, 226, 77, 158, 216, 45, 51, 251, 237,
    220, 65, 183, 240, 190, 89, 252, 160, 131, 133, 136, 189, 6, 0, 0, 0,
    37, 73, 68, 65, 84, 143, 238, 222, 39, 255, 224, 51, 173, 127, 225, 167,
    95, 211, 179, 35, 217, 254, 22, 94, 30, 199, 29, 126, 93, 135, 27, 234,
    89, 73, 253, 215, 255, 168, 151, 250, 39, 253, 203, 80, 65, 170, 0, 0,
    0, 3, 73, 68, 65, 84, 60, 108, 86, 159, 251, 130, 60, 0, 0, 0,
    0, 73, 69, 78, 68, 174, 66, 96, 130,
];

// The same image with the fixed Huffman codes.
const GRADIENT_FIXED: [u8; 517] = [
    137, 80, 78, 71, 13, 10, 26, 10, 0, 0, 0, 13, 73, 72, 68, 82,
    0, 0, 0, 16, 0, 0, 0, 12, 8, 2, 0, 0, 0, 228, 133, 170,
    214, 0, 0, 0, 23, 116, 69, 88, 116, 67, 111, 109, 109, 101, 110, 116,
    0, 109, 97, 100, 101, 32, 102, 111, 114, 32, 97, 32, 116, 101, 115, 116,
    226, 233, 245, 244, 0, 0, 1, 169, 73, 68, 65, 84, 120, 1, 99, 96,
    96, 96, 96, 103, 100, 224, 99, 98, 16, 101, 102, 144, 97, 97, 80, 102,
    101, 208, 98, 99, 48, 100, 103, 176, 224, 96, 176, 231, 100, 112, 227, 98,
    240, 229, 102, 8, 225, 97, 136, 230, 101, 72, 226, 99, 200, 228, 103, 96,
    228, 101, 100, 96, 255, 207, 200, 206, 204, 72, 36, 201, 4, 212, 192, 203,
    204, 200, 251, 151, 137, 247, 63, 51, 47, 35, 11, 47, 51, 43, 239, 95,
    54, 222, 255, 236, 188, 140, 28, 188, 204, 156, 188, 127, 185, 120, 255, 115,
    243, 50, 242, 240, 50, 243, 242, 254, 229, 227, 253, 207, 207, 44, 197, 196,
    192, 245, 159, 137, 139, 129, 153, 235, 63, 51, 23, 11, 11, 215, 127, 22,
    46, 6, 86, 174, 255, 172, 92, 44, 108, 92, 255, 217, 184, 24, 216, 185,
    254, 179, 115, 177, 112, 112, 253, 231, 224, 98, 224, 228, 250, 207, 201, 2,
    114, 18, 19, 35, 59, 35, 19, 59, 35, 51, 251, 79, 22, 118, 70, 36,
    196, 4, 99, 32, 137, 51, 56, 178, 50, 120, 176, 176, 250, 179, 115, 133,
    177, 241, 199, 50, 138, 164, 48, 72, 102, 51, 203, 21, 49, 41, 87, 242,
    106, 52, 240, 232, 182, 243, 27, 245, 241, 153, 79, 229, 180, 153, 195, 225,
    184, 152, 219, 109, 21, 151, 55, 163, 31, 27, 48, 148, 216, 216, 255, 178,
    161, 147, 188, 108, 88, 197, 193, 158, 254, 15, 12, 43, 152, 167, 255, 179,
    242, 50, 194, 60, 253, 159, 147, 151, 17, 230, 233, 255, 188, 188, 140, 96,
    79, 91, 179, 50, 112, 49, 177, 114, 49, 131, 125, 201, 202, 198, 197, 198,
    206, 197, 206, 206, 197, 193, 193, 245, 145, 131, 235, 23, 39, 215, 111, 78,
    174, 63, 92, 92, 127, 185, 184, 254, 113, 115, 253, 231, 230, 98, 224, 97,
    129, 198, 3, 19, 19, 251, 127, 102, 144, 47, 255, 179, 178, 51, 177, 177,
    255, 103, 103, 103, 228, 96, 255, 207, 201, 206, 196, 137, 70, 50, 52, 113,
    49, 116, 114, 115, 77, 224, 16, 153, 206, 41, 55, 143, 79, 99, 41, 191,
    209, 26, 30, 155, 205, 188, 110, 187, 152, 2, 14, 50, 71, 157, 96, 72,
    57, 207, 152, 119, 141, 173, 226, 46, 123, 211, 19, 150, 158, 215, 172, 211,
    24, 251, 185, 129, 54, 112, 67, 17, 59, 55, 130, 253, 157, 27, 171, 56,
    0, 253, 60, 108, 86, 12, 141, 237, 110, 0, 0, 0, 0, 73, 69, 78,
    68, 174, 66, 96, 130,
];

// The same image in a stored block.
const GRADIENT_STORED: [u8; 691] = [
    137, 80, 78, 71, 13, 10, 26, 10, 0, 0, 0, 13, 73, 72, 68, 82,
    0, 0, 0, 16, 0, 0, 0, 12, 8, 2, 0, 0, 0, 228, 133, 170,
    214, 0, 0, 0, 23, 116, 69, 88, 116, 67, 111, 109, 109, 101, 110, 116,
    0, 109, 97, 100, 101, 32, 102, 111, 114, 32, 97, 32, 116, 101, 115, 116,
    226, 233, 245, 244, 0, 0, 2, 87, 73, 68, 65, 84, 120, 1, 1, 76,
    2, 179, 253, 0, 0, 0, 0, 7, 1, 0, 14, 2, 0, 21, 3, 0,
    28, 4, 0, 35, 5, 0, 42, 6, 0, 49, 7, 0, 56, 8, 0, 63,
    9, 0, 70, 10, 0, 77, 11, 0, 84, 12, 0, 91, 13, 0, 98, 14,
    0, 105, 15, 0, 1, 13, 1, 0, 7, 255, 1, 7, 3, 1, 7, 255,
    1, 7, 3, 1, 7, 255, 1, 7, 3, 1, 7, 255, 1, 7, 3, 1,
    7, 255, 1, 7, 3, 1, 7, 255, 1, 7, 3, 1, 7, 255, 1, 7,
    3, 1, 7, 255, 1, 2, 13, 1, 0, 13, 3, 1, 13, 253, 2, 13,
    255, 3, 13, 1, 4, 13, 3, 5, 13, 253, 6, 13, 255, 7, 13, 1,
    8, 13, 3, 9, 13, 253, 10, 13, 255, 11, 13, 1, 12, 13, 3, 13,
    13, 253, 14, 13, 255, 15, 3, 26, 2, 0, 10, 255, 2, 10, 0, 3,
    10, 255, 3, 10, 4, 4, 10, 255, 4, 10, 0, 5, 10, 255, 5, 10,
    4, 6, 10, 255, 6, 10, 0, 7, 10, 255, 7, 10, 4, 8, 10, 255,
    8, 10, 0, 9, 10, 255, 9, 4, 13, 1, 0, 7, 2, 1, 7, 1,
    2, 7, 1, 3, 7, 249, 4, 7, 1, 4, 7, 1, 4, 7, 1, 4,
    7, 1, 4, 7, 2, 4, 7, 1, 4, 7, 1, 4, 7, 249, 4, 7,
    1, 4, 7, 1, 4, 7, 1, 4, 0, 65, 5, 0, 72, 4, 5, 79,
    7, 10, 86, 6, 15, 93, 1, 20, 100, 0, 25, 107, 3, 30, 114, 2,
    35, 121, 13, 40, 128, 12, 45, 135, 15, 50, 142, 14, 55, 149, 9, 60,
    156, 8, 65, 163, 11, 70, 170, 10, 75, 1, 78, 6, 0, 7, 1, 6,
    7, 253, 6, 7, 1, 6, 7, 253, 6, 7, 1, 6, 7, 253, 6, 7,
    1, 6, 7, 13, 6, 7, 1, 6, 7, 253, 6, 7, 1, 6, 7, 253,
    6, 7, 1, 6, 7, 253, 6, 7, 1, 6, 2, 13, 1, 0, 13, 255,
    1, 13, 1, 2, 13, 255, 3, 13, 1, 4, 13, 255, 5, 13, 1, 6,
    13, 255, 7, 13, 1, 8, 13, 255, 9, 13, 1, 10, 13, 255, 11, 13,
    1, 12, 13, 255, 13, 13, 1, 14, 13, 255, 15, 3, 59, 5, 0, 10,
    2, 5, 10, 3, 5, 10, 4, 6, 10, 5, 6, 10, 6, 7, 10, 7,
    7, 10, 8, 8, 10, 241, 8, 10, 250, 9, 10, 251, 9, 10, 252, 10,
    10, 253, 10, 10, 254, 11, 10, 255, 11, 10, 0, 12, 4, 13, 1, 0,
    7, 255, 1, 7, 2, 2, 7, 255, 3, 7, 2, 4, 7, 255, 5, 7,
    2, 6, 7, 255, 7, 7, 1, 8, 7, 255, 9, 7, 2, 9, 7, 255,
    9, 7, 2, 9, 7, 255, 9, 7, 2, 9, 7, 255, 9, 0, 130, 10,
    0, 137, 11, 10, 144, 8, 20, 151, 9, 30, 158, 14, 40, 165, 15, 50,
    172, 12, 60, 179, 13, 70, 186, 2, 80, 193, 3, 90, 200, 0, 100, 207,
    1, 110, 214, 6, 120, 221, 7, 130, 228, 4, 140, 235, 5, 150, 1, 143,
    11, 0, 7, 255, 11, 7, 255, 11, 7, 255, 11, 7, 7, 11, 7, 255,
    11, 7, 255, 11, 7, 255, 11, 7, 247, 11, 7, 255, 11, 7, 255, 11,
    7, 255, 11, 7, 7, 11, 7, 255, 11, 7, 255, 11, 7, 255, 11, 253,
    60, 108, 86, 227, 153, 9, 179, 0, 0, 0, 0, 73, 69, 78, 68, 174,
    66, 96, 130,
];

// 3000 bytes three times over, 40000 zeros, then 0 to 255 four times over.
const LONG_STREAM: [u8; 2516] = [
    120, 218, 237, 214, 247, 63, 21, 12, 27, 199, 113, 221, 199, 60, 217, 123,
    133, 236, 61, 146, 149, 34, 155, 108, 50, 34, 220, 200, 113, 178, 247, 10,
    57, 118, 182, 172, 219, 29, 117, 204, 147, 77, 70, 68, 57, 182, 236, 77,
    200, 177, 183, 236, 91, 121, 230, 143, 207, 63, 240, 252, 244, 60, 215, 251,
    63, 184, 126, 184, 94, 223, 15, 209, 13, 98, 10, 90, 54, 126, 25, 53,
    51, 151, 176, 204, 202, 190, 117, 50, 97, 125, 159, 60, 252, 193, 45, 195,
    200, 134, 109, 94, 219, 220, 105, 214, 39, 5, 107, 18, 65, 93, 12, 206,
    77, 148, 142, 173, 204, 190, 99, 178, 217, 87, 142, 131, 242, 69, 12, 49,
    23, 30, 107, 118, 115, 150, 211, 214, 223, 28, 183, 253, 136, 146, 111, 213,
    104, 204, 249, 80, 150, 105, 173, 39, 72, 76, 132, 9, 142, 191, 148, 89,
    203, 51, 166, 192, 71, 170, 16, 225, 227, 141, 88, 9, 53, 17, 198, 252,
    151, 163, 184, 24, 71, 53, 62, 242, 189, 201, 118, 92, 78, 92, 176, 135,
    147, 205, 99, 19, 35, 35, 19, 11, 91, 103, 207, 208, 132, 188, 138, 47,
    51, 135, 55, 133, 180, 92, 18, 170, 167, 174, 69, 44, 98, 26, 183, 184,
    45, 82, 7, 200, 181, 227, 7, 233, 173, 177, 251, 202, 175, 190, 73, 199,
    45, 41, 190, 254, 97, 218, 192, 26, 177, 97, 242, 73, 44, 159, 58, 234,
    210, 103, 215, 117, 3, 181, 237, 121, 22, 129, 204, 22, 104, 212, 93, 12,
    160, 193, 105, 175, 199, 137, 142, 4, 221, 254, 26, 34, 50, 159, 162, 241,
    179, 209, 71, 234, 160, 214, 255, 30, 241, 80, 30, 74, 1, 185, 216, 144,
    140, 210, 224, 69, 172, 245, 215, 228, 69, 123, 219, 27, 171, 43, 72, 10,
    243, 241, 112, 243, 240, 9, 75, 41, 105, 154, 254, 238, 27, 155, 95, 63,
    180, 69, 38, 168, 227, 150, 222, 178, 74, 251, 192, 163, 112, 2, 169, 246,
    162, 229, 92, 33, 164, 157, 196, 32, 119, 77, 54, 122, 90, 44, 106, 94,
    62, 243, 135, 89, 35, 71, 212, 142, 101, 151, 108, 49, 107, 50, 73, 248,
    95, 65, 231, 193, 63, 163, 144, 153, 60, 85, 15, 70, 156, 46, 211, 197,
    250, 92, 200, 202, 13, 142, 243, 181, 142, 223, 153, 146, 180, 120, 9, 19,
    222, 218, 243, 16, 202, 60, 21, 16, 163, 133, 222, 26, 108, 135, 253, 197,
    24, 71, 13, 33, 170, 147, 197, 254, 230, 178, 188, 100, 76, 168, 191, 183,
    151, 151, 79, 64, 88, 116, 202, 31, 184, 143, 95, 191, 159, 211, 138, 106,
    187, 196, 225, 134, 79, 185, 116, 3, 74, 166, 145, 42, 1, 213, 219, 66,
    168, 242, 93, 153, 224, 78, 106, 155, 138, 95, 38, 165, 215, 86, 13, 244,
    190, 147, 138, 5, 100, 222, 223, 30, 181, 73, 98, 217, 210, 41, 227, 201,
    226, 111, 166, 50, 23, 136, 52, 106, 78, 163, 175, 179, 36, 251, 93, 72,
    203, 30, 29, 230, 60, 220, 205, 211, 189, 170, 118, 230, 156, 74, 55, 162,
    25, 203, 178, 225, 219, 107, 137, 179, 20, 189, 158, 172, 140, 115, 82, 227,
    37, 221, 30, 109, 41, 74, 139, 240, 114, 178, 50, 210, 81, 87, 85, 81,
    213, 208, 53, 182, 118, 246, 121, 153, 81, 218, 54, 177, 71, 33, 168, 133,
    74, 170, 155, 35, 150, 122, 154, 220, 113, 34, 234, 248, 231, 44, 139, 101,
    222, 146, 128, 71, 51, 137, 89, 209, 153, 62, 246, 202, 162, 158, 222, 119,
    74, 25, 75, 25, 184, 106, 214, 165, 80, 37, 80, 192, 158, 195, 146, 203,
    137, 21, 109, 80, 29, 122, 122, 128, 97, 175, 211, 223, 140, 21, 236, 115,
    103, 108, 115, 97, 248, 226, 195, 63, 155, 166, 75, 252, 57, 66, 21, 209,
    155, 106, 197, 119, 216, 145, 230, 164, 72, 183, 221, 141, 141, 114, 210, 22,
    103, 186, 222, 158, 233, 109, 169, 196, 230, 103, 165, 167, 166, 166, 103, 229,
    23, 87, 183, 246, 207, 237, 222, 96, 145, 126, 132, 138, 45, 237, 223, 103,
    82, 65, 103, 119, 159, 137, 216, 101, 141, 220, 212, 137, 235, 163, 52, 201,
    37, 72, 134, 13, 222, 242, 238, 225, 10, 158, 188, 147, 113, 98, 213, 46,
    152, 254, 203, 109, 193, 176, 83, 177, 86, 188, 92, 168, 76, 180, 90, 174,
    93, 111, 250, 217, 89, 2, 215, 7, 195, 237, 56, 193, 222, 231, 180, 77,
    14, 84, 31, 209, 28, 195, 209, 202, 167, 117, 94, 82, 71, 31, 66, 213,
    169, 230, 202, 130, 244, 184, 78, 190, 150, 70, 59, 170, 11, 32, 15, 103,
    241, 181, 133, 105, 152, 32, 79, 148, 163, 131, 189, 131, 147, 171, 87, 112,
    116, 198, 187, 250, 158, 133, 99, 42, 97, 109, 151, 248, 138, 177, 75, 62,
    163, 240, 170, 101, 70, 189, 168, 182, 11, 133, 160, 143, 215, 154, 201, 51,
    252, 126, 93, 44, 110, 157, 28, 1, 227, 119, 50, 207, 108, 58, 197, 178,
    137, 253, 214, 172, 134, 52, 219, 149, 154, 20, 90, 238, 119, 234, 77, 216,
    239, 133, 211, 22, 41, 141, 185, 145, 151, 104, 111, 37, 203, 46, 196, 222,
    249, 158, 161, 121, 89, 227, 202, 183, 92, 224, 192, 183, 89, 29, 164, 78,
    187, 84, 27, 109, 45, 141, 92, 235, 124, 23, 141, 50, 184, 203, 133, 60,
    223, 152, 27, 194, 183, 126, 168, 173, 174, 174, 107, 108, 235, 26, 158, 223,
    186, 164, 186, 173, 96, 252, 60, 174, 164, 103, 155, 70, 206, 46, 161, 113,
    141, 89, 47, 162, 241, 64, 20, 85, 186, 41, 238, 211, 130, 48, 204, 223,
    185, 159, 190, 161, 146, 123, 98, 90, 199, 24, 188, 164, 93, 123, 235, 213,
    149, 7, 193, 122, 76, 191, 79, 187, 87, 111, 196, 98, 9, 125, 22, 195,
    92, 174, 50, 229, 137, 44, 213, 218, 72, 148, 158, 121, 41, 62, 151, 112,
    111, 191, 216, 150, 121, 44, 213, 136, 110, 50, 223, 73, 226, 178, 55, 7,
    253, 128, 105, 175, 183, 40, 202, 81, 83, 132, 238, 114, 117, 180, 163, 6,
    155, 147, 26, 143, 137, 140, 136, 196, 196, 167, 229, 21, 215, 125, 25, 95,
    191, 98, 148, 208, 117, 137, 45, 27, 60, 98, 215, 240, 122, 51, 68, 36,
    139, 198, 126, 99, 179, 204, 153, 227, 114, 174, 186, 208, 204, 92, 149, 127,
    181, 162, 156, 125, 108, 90, 207, 28, 186, 162, 223, 196, 159, 73, 18, 180,
    231, 188, 244, 100, 198, 114, 214, 118, 5, 125, 18, 73, 253, 70, 10, 111,
    125, 148, 36, 220, 227, 66, 81, 105, 118, 85, 106, 246, 91, 157, 51, 219,
    72, 188, 198, 141, 142, 72, 117, 242, 225, 28, 39, 105, 162, 209, 162, 96,
    99, 17, 82, 66, 103, 81, 156, 187, 249, 3, 81, 86, 242, 203, 61, 194,
    252, 228, 216, 200, 200, 216, 212, 194, 234, 254, 21, 146, 93, 252, 161, 165,
    87, 98, 89, 207, 6, 82, 242, 113, 120, 249, 52, 169, 60, 186, 96, 138,
    70, 47, 190, 151, 66, 63, 125, 150, 215, 163, 141, 242, 105, 45, 153, 93,
    51, 163, 239, 248, 221, 220, 107, 151, 209, 251, 21, 156, 41, 136, 224, 35,
    183, 77, 212, 230, 243, 131, 128, 235, 4, 230, 18, 249, 126, 187, 211, 20,
    145, 30, 23, 242, 247, 198, 231, 111, 245, 47, 113, 54, 52, 93, 97, 114,
    71, 213, 94, 50, 167, 173, 24, 3, 182, 141, 230, 68, 187, 187, 84, 27,
    248, 119, 152, 103, 122, 210, 108, 196, 135, 75, 163, 248, 230, 234, 50, 108,
    97, 193, 219, 162, 242, 154, 150, 174, 177, 239, 199, 100, 156, 178, 6, 174,
    177, 37, 125, 187, 244, 74, 78, 169, 159, 246, 120, 204, 19, 59, 127, 42,
    6, 54, 253, 165, 18, 51, 196, 234, 92, 79, 108, 89, 129, 176, 105, 100,
    240, 25, 151, 207, 71, 184, 77, 107, 212, 243, 231, 82, 199, 92, 135, 156,
    7, 94, 188, 64, 36, 50, 22, 74, 124, 50, 90, 13, 161, 175, 208, 89,
    143, 21, 30, 242, 227, 236, 241, 189, 61, 22, 173, 116, 88, 238, 196, 179,
    84, 232, 40, 124, 208, 140, 49, 230, 62, 196, 231, 121, 235, 9, 32, 86,
    240, 165, 201, 254, 118, 122, 10, 66, 108, 84, 196, 87, 167, 71, 7, 7,
    71, 167, 63, 73, 104, 56, 68, 148, 244, 29, 130, 210, 222, 247, 174, 147,
    137, 24, 6, 20, 244, 159, 9, 88, 36, 180, 159, 73, 61, 47, 219, 16,
    118, 171, 189, 84, 79, 89, 16, 123, 49, 42, 24, 49, 123, 55, 227, 135,
    121, 51, 87, 220, 209, 211, 65, 229, 42, 222, 92, 250, 36, 138, 56, 242,
    68, 154, 44, 110, 156, 124, 183, 197, 86, 56, 83, 181, 222, 70, 172, 208,
    128, 23, 203, 23, 119, 246, 254, 80, 201, 213, 124, 11, 250, 145, 84, 19,
    166, 121, 172, 135, 18, 249, 12, 46, 220, 92, 156, 124, 181, 19, 27, 131,
    54, 86, 228, 167, 35, 58, 36, 204, 12, 247, 226, 63, 119, 124, 198, 247,
    141, 204, 174, 253, 248, 141, 65, 80, 217, 204, 61, 161, 180, 103, 147, 82,
    198, 26, 83, 179, 72, 173, 234, 135, 91, 225, 180, 206, 153, 97, 183, 43,
    222, 83, 136, 153, 224, 15, 28, 228, 13, 157, 146, 205, 56, 182, 104, 229,
    125, 117, 230, 60, 161, 217, 44, 81, 204, 149, 199, 154, 195, 246, 39, 47,
    78, 182, 195, 112, 209, 139, 56, 79, 102, 16, 69, 86, 170, 187, 151, 169,
    188, 158, 161, 246, 163, 216, 154, 182, 15, 163, 74, 244, 25, 163, 67, 51,
    131, 245, 82, 165, 91, 109, 73, 67, 107, 242, 34, 86, 123, 43, 95, 135,
    163, 45, 117, 148, 36, 248, 56, 152, 232, 104, 104, 233, 153, 57, 249, 37,
    239, 233, 62, 113, 127, 153, 83, 51, 176, 65, 42, 164, 231, 153, 213, 190,
    197, 172, 25, 136, 91, 98, 54, 74, 236, 37, 211, 77, 26, 99, 115, 172,
    186, 122, 244, 230, 72, 187, 224, 194, 188, 142, 222, 127, 86, 165, 148, 238,
    197, 142, 205, 176, 122, 139, 76, 133, 112, 169, 208, 123, 169, 70, 149, 126,
    139, 181, 0, 100, 129, 220, 48, 154, 172, 68, 123, 39, 77, 225, 123, 146,
    210, 214, 31, 70, 36, 109, 1, 50, 7, 213, 222, 114, 87, 248, 100, 107,
    161, 243, 254, 2, 127, 3, 33, 226, 149, 206, 226, 68, 111, 107, 13, 105,
    110, 90, 196, 197, 193, 38, 97, 121, 105, 153, 176, 117, 120, 73, 66, 127,
    251, 142, 150, 173, 95, 114, 121, 207, 58, 185, 152, 105, 72, 209, 200, 47,
    9, 251, 204, 1, 196, 253, 224, 166, 115, 165, 240, 110, 106, 171, 226, 99,
    141, 236, 29, 245, 252, 51, 179, 58, 134, 128, 121, 245, 10, 150, 232, 99,
    231, 25, 131, 110, 149, 143, 10, 77, 138, 109, 106, 3, 230, 203, 30, 191,
    82, 249, 90, 76, 119, 227, 5, 123, 92, 169, 234, 109, 201, 234, 127, 167,
    239, 10, 150, 218, 42, 114, 224, 94, 198, 162, 36, 47, 240, 105, 246, 210,
    196, 179, 53, 137, 207, 212, 121, 137, 55, 190, 54, 20, 36, 6, 161, 172,
    13, 212, 239, 201, 201, 72, 73, 201, 200, 41, 107, 24, 217, 160, 67, 146,
    222, 54, 141, 236, 144, 11, 106, 163, 83, 62, 44, 34, 229, 159, 101, 247,
    95, 203, 121, 190, 223, 20, 114, 173, 56, 82, 140, 26, 230, 116, 251, 68,
    231, 210, 206, 234, 63, 126, 231, 245, 133, 93, 143, 244, 27, 202, 176, 125,
    199, 89, 147, 65, 221, 94, 157, 1, 163, 41, 187, 173, 64, 210, 108, 145,
    246, 199, 251, 9, 66, 61, 168, 155, 53, 150, 55, 42, 158, 32, 91, 61,
    249, 23, 178, 76, 104, 71, 210, 31, 115, 16, 42, 131, 117, 88, 183, 219,
    95, 187, 107, 243, 33, 8, 221, 184, 180, 96, 39, 99, 85, 105, 62, 86,
    26, 114, 4, 17, 17, 236, 58, 236, 58, 236, 250, 255, 236, 174, 195, 127,
    195, 127, 195, 127, 67, 183, 67, 183, 67, 183, 67, 183, 67, 183, 195, 174,
    195, 174, 195, 174, 67, 183, 195, 127, 195, 127, 195, 127, 67, 183, 67, 183,
    67, 183, 67, 183, 67, 183, 195, 174, 195, 174, 195, 174, 255, 23, 186, 29,
    0, 0, 0, 0, 0, 0, 0, 0, 0, 0, 0, 0, 0, 0, 0, 0,
    0, 0, 0, 0, 0, 0, 0, 0, 0, 0, 0, 0, 0, 0, 0, 0,
    0, 0, 0, 0, 0, 0, 0, 0, 0, 0, 0, 0, 0, 0, 0, 0,
    0, 0, 0, 0, 0, 0, 0, 0, 0, 0, 0, 0, 0, 0, 0, 0,
    0, 0, 0, 0, 0, 0, 0, 0, 0, 0, 0, 0, 0, 0, 0, 0,
    0, 0, 0, 0, 0, 0, 0, 0, 0, 0, 0, 0, 0, 0, 0, 0,
    240, 31, 55, 126, 67, 16, 147, 144, 146, 145, 83, 32, 111, 82, 82, 81,
    211, 208, 210, 209, 51, 48, 50, 49, 179, 176, 178, 177, 115, 112, 222, 226,
    226, 230, 185, 205, 203, 199, 47, 32, 40, 36, 44, 34, 42, 38, 46, 33,
    41, 37, 45, 115, 71, 246, 174, 156, 188, 130, 162, 210, 61, 229, 251, 15,
    84, 84, 31, 170, 169, 107, 104, 106, 105, 235, 232, 234, 61, 210, 55, 48,
    52, 50, 54, 49, 53, 51, 127, 108, 97, 105, 101, 253, 196, 198, 246, 169,
    157, 189, 195, 239, 142, 78, 206, 207, 92, 80, 174, 232, 231, 110, 238, 30,
    158, 94, 222, 62, 190, 126, 254, 1, 129, 65, 193, 33, 161, 97, 47, 194,
    35, 34, 95, 70, 97, 162, 99, 98, 227, 226, 19, 18, 95, 37, 37, 167,
    164, 166, 165, 103, 100, 190, 206, 202, 206, 201, 205, 251, 35, 255, 207, 55,
    5, 133, 111, 223, 97, 139, 138, 75, 74, 203, 202, 113, 239, 43, 42, 171,
    170, 107, 106, 235, 234, 27, 62, 52, 54, 53, 183, 124, 108, 109, 251, 212,
    222, 241, 249, 75, 39, 190, 171, 187, 167, 183, 175, 127, 96, 240, 235, 208,
    240, 200, 232, 216, 248, 196, 228, 212, 244, 204, 236, 220, 252, 194, 183, 197,
    165, 229, 239, 43, 132, 213, 181, 245, 141, 205, 173, 237, 157, 221, 189, 253,
    131, 195, 163, 31, 199, 39, 167, 103, 231, 23, 151, 127, 93, 253, 252, 117,
    253, 183, 191, 255, 227, 159, 255, 130, 251, 225, 254, 255, 231, 251, 255, 13,
    235, 229, 31, 50,
];

fn gradient_pixels(width: u32, height: u32) -> Vec<u8> {
    let mut pixels = Vec::new();
    for y in 0..height {
        for x in 0..width {
            pixels.push(((x * 7 + y * 13) % 256) as u8);
            pixels.push(((x ^ y) & 0xff) as u8);
            pixels.push(((x * y) % 256) as u8);
        }
    }
    pixels
}

#[test]
fn decodes_image_with_dynamic_codes_and_split_data() {
    let image = read_png(GRADIENT_DYNAMIC.to_vec()).unwrap();
    assert_eq!(image.width, 16);
    assert_eq!(image.height, 12);
    assert_eq!(image.pixels, gradient_pixels(16, 12));
}

#[test]
fn decodes_image_with_fixed_codes() {
    let image = read_png(GRADIENT_FIXED.to_vec()).unwrap();
    assert_eq!(image.width, 16);
    assert_eq!(image.height, 12);
    assert_eq!(image.pixels, gradient_pixels(16, 12));
}

#[test]
fn decodes_image_in_stored_block() {
    let image = read_png(GRADIENT_STORED.to_vec()).unwrap();
    assert_eq!(image.width, 16);
    assert_eq!(image.height, 12);
    assert_eq!(image.pixels, gradient_pixels(16, 12));
}

#[test]
fn pixel_count_is_three_bytes_per_pixel() {
    let image = read_png(GRADIENT_DYNAMIC.to_vec()).unwrap();
    assert_eq!(image.pixels.len(), 16 * 12 * 3);
}

#[test]
fn decompresses_long_stream_with_far_matches() {
    let mut expected: Vec<u8> = Vec::new();
    for _ in 0..3 {
        for i in 0..3000u32 {
            expected.push(((i * i + (i >> 3)) % 251) as u8);
        }
    }
    expected.extend(std::iter::repeat(0u8).take(40000));
    for _ in 0..4 {
        for i in 0..256u32 {
            expected.push(i as u8);
        }
    }
    assert_eq!(decompress_image(&LONG_STREAM).unwrap(), expected);
}

#[test]
fn cuts_are_errors_unless_only_unread_bytes_are_lost() {
    let whole = GRADIENT_DYNAMIC.to_vec();
    // The file ends with a data chunk that holds nothing but the last three
    // bytes of the stream's checksum, and the end chunk: neither is needed.
    let before_end = whole.len() - 12;
    let before_last_data = before_end - 15;
    for n in 0..whole.len() {
        let result = read_png(whole[..n].to_vec());
        if n == before_end || n == before_last_data {
            assert_eq!(result.unwrap().pixels, gradient_pixels(16, 12));
        } else {
            assert!(result.is_err(), "prefix of {} bytes", n);
        }
    }
}

#[test]
fn cut_inside_the_data_is_truncated_input() {
    let whole = GRADIENT_STORED.to_vec();
    let result = read_png(whole[..200].to_vec());
    assert_eq!(result.unwrap_err(), DecodeError::TruncatedInput);
}

#[test]
fn changing_any_one_byte_gives_an_image_or_an_error() {
    for source in [&GRADIENT_DYNAMIC[..], &GRADIENT_FIXED[..], &GRADIENT_STORED[..]] {
        for i in 0..source.len() {
            for flip in [0x01u8, 0x80u8, 0xffu8] {
                let mut changed = source.to_vec();
                changed[i] ^= flip;
                match read_png(changed) {
                    Ok(image) => assert_eq!(
                        image.pixels.len() as u64,
                        image.width as u64 * image.height as u64 * 3
                    ),
                    Err(_) => {}
                }
            }
        }
    }
}

#[test]
fn changing_any_one_byte_of_a_stream_gives_bytes_or_an_error() {
    for i in 0..LONG_STREAM.len() {
        let mut changed = LONG_STREAM.to_vec();
        changed[i] ^= 0x10;
        let _ = decompress_image(&changed);
    }
}

#[test]
fn arbitrary_bytes_give_an_error() {
    let mut state: u32 = 12345;
    for len in 0..200usize {
        let mut bytes = Vec::new();
        for _ in 0..len {
            state = state.wrapping_mul(1664525).wrapping_add(1013904223);
            bytes.push((state >> 24) as u8);
        }
        assert!(read_png(bytes.clone()).is_err());
        let _ = decompress_image(&bytes);
    }
}
