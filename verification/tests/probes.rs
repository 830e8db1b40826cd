use aplomado_core::probes::{
    bson_build_document, bson_extract_string, bson_int32, build_dns_query, build_mongo_query, build_pg_startup,
    build_smb2_negotiate, chain_probe_timeout, chain_probes, dns_probe_result, extract_pg_error, known_probe,
    mongo_reply_result, parse_dns_response, pg_message_action, pg_payload_len, sanitized_error,
    sip_options_request, sip_probe_result, skip_dns_name, smb_probe_result, tls_names_result, tls_probe_result,
    u32_from_le_bytes, PgAction, ProbeError, ProbeKind, ProbeMatch, VersionConfidence,
};
use aplomado_core::scanner::Duration;
use aplomado_core::types::IpAddress;

// A self-signed certificate whose subject is CN=benno, without extensions.
const BENNO_DER: [u8; 341] = [
    0x30, 0x82, 0x01, 0x51, 0x30, 0x81, 0xd8, 0xa0, 0x03, 0x02, 0x01, 0x02, 0x02, 0x09, 0x00, 0xb5,
    0x71, 0x92, 0x28, 0x4c, 0xeb, 0x4d, 0x1e, 0x30, 0x0a, 0x06, 0x08, 0x2a, 0x86, 0x48, 0xce, 0x3d,
    0x04, 0x03, 0x02, 0x30, 0x10, 0x31, 0x0e, 0x30, 0x0c, 0x06, 0x03, 0x55, 0x04, 0x03, 0x0c, 0x05,
    0x62, 0x65, 0x6e, 0x6e, 0x6f, 0x30, 0x1e, 0x17, 0x0d, 0x31, 0x38, 0x31, 0x31, 0x31, 0x33, 0x30,
    0x32, 0x35, 0x34, 0x34, 0x30, 0x5a, 0x17, 0x0d, 0x31, 0x39, 0x31, 0x31, 0x31, 0x33, 0x30, 0x32,
    0x35, 0x34, 0x34, 0x30, 0x5a, 0x30, 0x10, 0x31, 0x0e, 0x30, 0x0c, 0x06, 0x03, 0x55, 0x04, 0x03,
    0x0c, 0x05, 0x62, 0x65, 0x6e, 0x6e, 0x6f, 0x30, 0x76, 0x30, 0x10, 0x06, 0x07, 0x2a, 0x86, 0x48,
    0xce, 0x3d, 0x02, 0x01, 0x06, 0x05, 0x2b, 0x81, 0x04, 0x00, 0x22, 0x03, 0x62, 0x00, 0x04, 0x38,
    0x6b, 0x1c, 0xb5, 0x53, 0x30, 0x70, 0xbb, 0x19, 0x3c, 0x81, 0xfc, 0xc3, 0x73, 0xb5, 0x3a, 0x16,
    0xb2, 0xcd, 0xb3, 0x96, 0x6b, 0xd1, 0xeb, 0x65, 0xf5, 0xa5, 0x06, 0x81, 0x37, 0xa7, 0xd8, 0x84,
    0x12, 0x44, 0xd5, 0x76, 0x1a, 0xd1, 0x5d, 0x82, 0xd5, 0xf1, 0x86, 0x5e, 0x3f, 0x76, 0x31, 0xe9,
    0xdc, 0x3a, 0xd5, 0xf2, 0x7d, 0x85, 0x71, 0x9f, 0xe0, 0xd8, 0xd3, 0xb8, 0x32, 0x4f, 0xfe, 0xf5,
    0x1d, 0x0d, 0x76, 0x4c, 0x93, 0x9e, 0xf7, 0x4c, 0x30, 0x8f, 0x2d, 0xbf, 0xe8, 0xdd, 0x56, 0xd6,
    0x33, 0xaf, 0xe4, 0x78, 0xe9, 0x85, 0x54, 0xfc, 0x25, 0x09, 0x55, 0x36, 0xa0, 0x02, 0xf8, 0x30,
    0x0a, 0x06, 0x08, 0x2a, 0x86, 0x48, 0xce, 0x3d, 0x04, 0x03, 0x02, 0x03, 0x68, 0x00, 0x30, 0x65,
    0x02, 0x30, 0x1f, 0xcd, 0x2d, 0x6d, 0x99, 0x9f, 0x86, 0x48, 0x06, 0x97, 0xae, 0xc3, 0xdc, 0x7c,
    0x07, 0x75, 0x03, 0xdc, 0x9f, 0x59, 0x5b, 0x41, 0xf2, 0xd5, 0xb1, 0x14, 0xd3, 0x68, 0xda, 0x3e,
    0xff, 0x70, 0xbd, 0xe9, 0xb9, 0xfd, 0xaf, 0x42, 0x79, 0x70, 0x57, 0xfd, 0x01, 0xa1, 0x96, 0x75,
    0x2b, 0x82, 0x02, 0x31, 0x00, 0xda, 0x13, 0x41, 0xde, 0x9a, 0x06, 0x29, 0xe9, 0x13, 0xd0, 0xcd,
    0xe6, 0xfd, 0xe9, 0xad, 0xa0, 0x8e, 0x56, 0x84, 0x6f, 0x03, 0x72, 0xd4, 0x1f, 0x0e, 0xef, 0x87,
    0xc4, 0xdb, 0x85, 0x91, 0x5e, 0x23, 0x94, 0x9b, 0x87, 0xa5, 0x9f, 0xdc, 0x06, 0x43, 0x72, 0x35,
    0x89, 0x5e, 0x8d, 0xb5, 0x95
];

// A certificate for CN=lists.for-our.info with that name as its one DNS alternative name.
const LISTS_DER: [u8; 1375] = [
    0x30, 0x82, 0x05, 0x5b, 0x30, 0x82, 0x04, 0x43, 0xa0, 0x03, 0x02, 0x01, 0x02, 0x02, 0x12, 0x03,
    0x20, 0x48, 0x03, 0x0b, 0xbb, 0x34, 0x10, 0xf9, 0x09, 0x3c, 0x57, 0xf2, 0xcb, 0x83, 0x08, 0xc8,
    0x05, 0x30, 0x0d, 0x06, 0x09, 0x2a, 0x86, 0x48, 0x86, 0xf7, 0x0d, 0x01, 0x01, 0x0b, 0x05, 0x00,
    0x30, 0x4a, 0x31, 0x0b, 0x30, 0x09, 0x06, 0x03, 0x55, 0x04, 0x06, 0x13, 0x02, 0x55, 0x53, 0x31,
    0x16, 0x30, 0x14, 0x06, 0x03, 0x55, 0x04, 0x0a, 0x13, 0x0d, 0x4c, 0x65, 0x74, 0x27, 0x73, 0x20,
    0x45, 0x6e, 0x63, 0x72, 0x79, 0x70, 0x74, 0x31, 0x23, 0x30, 0x21, 0x06, 0x03, 0x55, 0x04, 0x03,
    0x13, 0x1a, 0x4c, 0x65, 0x74, 0x27, 0x73, 0x20, 0x45, 0x6e, 0x63, 0x72, 0x79, 0x70, 0x74, 0x20,
    0x41, 0x75, 0x74, 0x68, 0x6f, 0x72, 0x69, 0x74, 0x79, 0x20, 0x58, 0x33, 0x30, 0x1e, 0x17, 0x0d,
    0x31, 0x39, 0x30, 0x37, 0x31, 0x32, 0x31, 0x31, 0x31, 0x32, 0x33, 0x30, 0x5a, 0x17, 0x0d, 0x31,
    0x39, 0x31, 0x30, 0x31, 0x30, 0x31, 0x31, 0x31, 0x32, 0x33, 0x30, 0x5a, 0x30, 0x1d, 0x31, 0x1b,
    0x30, 0x19, 0x06, 0x03, 0x55, 0x04, 0x03, 0x13, 0x12, 0x6c, 0x69, 0x73, 0x74, 0x73, 0x2e, 0x66,
    0x6f, 0x72, 0x2d, 0x6f, 0x75, 0x72, 0x2e, 0x69, 0x6e, 0x66, 0x6f, 0x30, 0x82, 0x01, 0x22, 0x30,
    0x0d, 0x06, 0x09, 0x2a, 0x86, 0x48, 0x86, 0xf7, 0x0d, 0x01, 0x01, 0x01, 0x05, 0x00, 0x03, 0x82,
    0x01, 0x0f, 0x00, 0x30, 0x82, 0x01, 0x0a, 0x02, 0x82, 0x01, 0x01, 0x00, 0xc5, 0x68, 0xb6, 0x2d,
    0xf8, 0x5f, 0x8e, 0x83, 0x68, 0x8d, 0xa7, 0x5f, 0x6e, 0x02, 0xf9, 0xa6, 0x76, 0x39, 0xf9, 0x26,
    0x84, 0xa6, 0xe2, 0x76, 0x25, 0xe2, 0x45, 0x3a, 0x27, 0xd4, 0xc2, 0xd2, 0x30, 0x69, 0x75, 0xa0,
    0xd5, 0xbd, 0x33, 0x24, 0x72, 0x61, 0x80, 0xb3, 0x3f, 0x88, 0xfa, 0x0c, 0xd2, 0x82, 0x84, 0x99,
    0xeb, 0xf1, 0x99, 0xd5, 0x4a, 0x18, 0x76, 0xa1, 0x90, 0xfe, 0xc8, 0x75, 0x8f, 0xf6, 0x5a, 0x67,
    0x5c, 0xc1, 0xa4, 0x6e, 0xc5, 0x31, 0x7a, 0x34, 0x4c, 0x53, 0xd8, 0x67, 0x68, 0x00, 0x79, 0xd2,
    0x95, 0xd1, 0x20, 0x30, 0x33, 0x6a, 0xf9, 0x15, 0x14, 0x28, 0x2e, 0x16, 0x52, 0x7c, 0x9c, 0xa9,
    0x2f, 0xfd, 0x8d, 0x40, 0xbe, 0x5c, 0x3b, 0xb5, 0xcd, 0x9a, 0x64, 0xe7, 0x77, 0x94, 0xe6, 0x41,
    0x12, 0xbf, 0x20, 0x27, 0xc9, 0x91, 0x0c, 0x6a, 0xaa, 0xb0, 0xd5, 0x3e, 0x67, 0x5d, 0x88, 0xea,
    0xc9, 0x44, 0xb2, 0xdc, 0xc6, 0x32, 0x9b, 0x2a, 0xe8, 0x07, 0xb0, 0x09, 0x5c, 0x38, 0x94, 0xc8,
    0xdd, 0x59, 0x68, 0x2e, 0x83, 0x35, 0x2b, 0xc5, 0x04, 0xd1, 0x02, 0xc1, 0xbc, 0xee, 0x89, 0xfa,
    0x80, 0xe8, 0x90, 0x1f, 0x67, 0x0c, 0x38, 0x33, 0x77, 0x2f, 0xb1, 0x6a, 0xe0, 0xa3, 0x8b, 0x40,
    0x88, 0xdb, 0xdf, 0xf9, 0x6e, 0x42, 0x10, 0x10, 0x86, 0x97, 0x4a, 0x98, 0x41, 0x85, 0x2e, 0x29,
    0xf7, 0x73, 0xe7, 0xf9, 0xa2, 0xbd, 0xed, 0x84, 0x20, 0xee, 0xc3, 0x00, 0xed, 0x39, 0x4d, 0x65,
    0x65, 0xff, 0xbc, 0xb7, 0xd4, 0xbc, 0xa5, 0x93, 0xcb, 0xad, 0x9a, 0xc8, 0xb3, 0xa1, 0xf6, 0xc6,
    0x35, 0xea, 0x09, 0x1b, 0x94, 0x63, 0xb8, 0x91, 0x35, 0xb3, 0xb5, 0xf1, 0x49, 0x1c, 0xea, 0xb9,
    0x43, 0x62, 0x10, 0x63, 0xf4, 0xb4, 0xfe, 0x72, 0x99, 0x81, 0x6c, 0x71, 0x02, 0x03, 0x01, 0x00,
    0x01, 0xa3, 0x82, 0x02, 0x66, 0x30, 0x82, 0x02, 0x62, 0x30, 0x0e, 0x06, 0x03, 0x55, 0x1d, 0x0f,
    0x01, 0x01, 0xff, 0x04, 0x04, 0x03, 0x02, 0x05, 0xa0, 0x30, 0x1d, 0x06, 0x03, 0x55, 0x1d, 0x25,
    0x04, 0x16, 0x30, 0x14, 0x06, 0x08, 0x2b, 0x06, 0x01, 0x05, 0x05, 0x07, 0x03, 0x01, 0x06, 0x08,
    0x2b, 0x06, 0x01, 0x05, 0x05, 0x07, 0x03, 0x02, 0x30, 0x0c, 0x06, 0x03, 0x55, 0x1d, 0x13, 0x01,
    0x01, 0xff, 0x04, 0x02, 0x30, 0x00, 0x30, 0x1d, 0x06, 0x03, 0x55, 0x1d, 0x0e, 0x04, 0x16, 0x04,
    0x14, 0x26, 0x3d, 0xa9, 0xbd, 0x1b, 0x65, 0xdc, 0x69, 0x68, 0x1f, 0x71, 0xde, 0xe8, 0x55, 0xf5,
    0x76, 0xcd, 0xd7, 0xd1, 0x51, 0x30, 0x1f, 0x06, 0x03, 0x55, 0x1d, 0x23, 0x04, 0x18, 0x30, 0x16,
    0x80, 0x14, 0xa8, 0x4a, 0x6a, 0x63, 0x04, 0x7d, 0xdd, 0xba, 0xe6, 0xd1, 0x39, 0xb7, 0xa6, 0x45,
    0x65, 0xef, 0xf3, 0xa8, 0xec, 0xa1, 0x30, 0x6f, 0x06, 0x08, 0x2b, 0x06, 0x01, 0x05, 0x05, 0x07,
    0x01, 0x01, 0x04, 0x63, 0x30, 0x61, 0x30, 0x2e, 0x06, 0x08, 0x2b, 0x06, 0x01, 0x05, 0x05, 0x07,
    0x30, 0x01, 0x86, 0x22, 0x68, 0x74, 0x74, 0x70, 0x3a, 0x2f, 0x2f, 0x6f, 0x63, 0x73, 0x70, 0x2e,
    0x69, 0x6e, 0x74, 0x2d, 0x78, 0x33, 0x2e, 0x6c, 0x65, 0x74, 0x73, 0x65, 0x6e, 0x63, 0x72, 0x79,
    0x70, 0x74, 0x2e, 0x6f, 0x72, 0x67, 0x30, 0x2f, 0x06, 0x08, 0x2b, 0x06, 0x01, 0x05, 0x05, 0x07,
    0x30, 0x02, 0x86, 0x23, 0x68, 0x74, 0x74, 0x70, 0x3a, 0x2f, 0x2f, 0x63, 0x65, 0x72, 0x74, 0x2e,
    0x69, 0x6e, 0x74, 0x2d, 0x78, 0x33, 0x2e, 0x6c, 0x65, 0x74, 0x73, 0x65, 0x6e, 0x63, 0x72, 0x79,
    0x70, 0x74, 0x2e, 0x6f, 0x72, 0x67, 0x2f, 0x30, 0x1d, 0x06, 0x03, 0x55, 0x1d, 0x11, 0x04, 0x16,
    0x30, 0x14, 0x82, 0x12, 0x6c, 0x69, 0x73, 0x74, 0x73, 0x2e, 0x66, 0x6f, 0x72, 0x2d, 0x6f, 0x75,
    0x72, 0x2e, 0x69, 0x6e, 0x66, 0x6f, 0x30, 0x4c, 0x06, 0x03, 0x55, 0x1d, 0x20, 0x04, 0x45, 0x30,
    0x43, 0x30, 0x08, 0x06, 0x06, 0x67, 0x81, 0x0c, 0x01, 0x02, 0x01, 0x30, 0x37, 0x06, 0x0b, 0x2b,
    0x06, 0x01, 0x04, 0x01, 0x82, 0xdf, 0x13, 0x01, 0x01, 0x01, 0x30, 0x28, 0x30, 0x26, 0x06, 0x08,
    0x2b, 0x06, 0x01, 0x05, 0x05, 0x07, 0x02, 0x01, 0x16, 0x1a, 0x68, 0x74, 0x74, 0x70, 0x3a, 0x2f,
    0x2f, 0x63, 0x70, 0x73, 0x2e, 0x6c, 0x65, 0x74, 0x73, 0x65, 0x6e, 0x63, 0x72, 0x79, 0x70, 0x74,
    0x2e, 0x6f, 0x72, 0x67, 0x30, 0x82, 0x01, 0x03, 0x06, 0x0a, 0x2b, 0x06, 0x01, 0x04, 0x01, 0xd6,
    0x79, 0x02, 0x04, 0x02, 0x04, 0x81, 0xf4, 0x04, 0x81, 0xf1, 0x00, 0xef, 0x00, 0x76, 0x00, 0x29,
    0x3c, 0x51, 0x96, 0x54, 0xc8, 0x39, 0x65, 0xba, 0xaa, 0x50, 0xfc, 0x58, 0x07, 0xd4, 0xb7, 0x6f,
    0xbf, 0x58, 0x7a, 0x29, 0x72, 0xdc, 0xa4, 0xc3, 0x0c, 0xf4, 0xe5, 0x45, 0x47, 0xf4, 0x78, 0x00,
    0x00, 0x01, 0x6b, 0xe6, 0x19, 0x5e, 0xf2, 0x00, 0x00, 0x04, 0x03, 0x00, 0x47, 0x30, 0x45, 0x02,
    0x20, 0x24, 0x0b, 0xd9, 0x29, 0xb5, 0xe1, 0xa0, 0x8c, 0x2f, 0x15, 0xfd, 0x6b, 0xd4, 0x5b, 0xc9,
    0x28, 0x32, 0x05, 0xf8, 0x9c, 0x84, 0xc4, 0x5d, 0x6e, 0xee, 0x90, 0x03, 0x63, 0x1b, 0xae, 0x5e,
    0x1e, 0x02, 0x21, 0x00, 0xd6, 0xf8, 0x09, 0xee, 0xc9, 0xea, 0x51, 0x60, 0xa0, 0xa2, 0xa1, 0x04,
    0xdd, 0x21, 0x1f, 0x2b, 0x78, 0xa8, 0x32, 0x8a, 0x73, 0x58, 0x1b, 0x0f, 0xbc, 0x6e, 0x8b, 0x74,
    0x2b, 0x82, 0x31, 0x10, 0x00, 0x75, 0x00, 0x6f, 0x53, 0x76, 0xac, 0x31, 0xf0, 0x31, 0x19, 0xd8,
    0x99, 0x00, 0xa4, 0x51, 0x15, 0xff, 0x77, 0x15, 0x1c, 0x11, 0xd9, 0x02, 0xc1, 0x00, 0x29, 0x06,
    0x8d, 0xb2, 0x08, 0x9a, 0x37, 0xd9, 0x13, 0x00, 0x00, 0x01, 0x6b, 0xe6, 0x19, 0x5f, 0x68, 0x00,
    0x00, 0x04, 0x03, 0x00, 0x46, 0x30, 0x44, 0x02, 0x20, 0x4c, 0x46, 0xab, 0x0d, 0xcb, 0xa3, 0x49,
    0xd2, 0x0b, 0x25, 0x2e, 0x4d, 0x17, 0xfd, 0xd8, 0x58, 0x06, 0x01, 0x2c, 0x16, 0x62, 0x38, 0xb9,
    0x50, 0x69, 0xd7, 0xb9, 0x89, 0xe9, 0x26, 0xb0, 0x2f, 0x02, 0x20, 0x70, 0xf0, 0x05, 0x95, 0x6a,
    0x0f, 0x1f, 0xcd, 0x9e, 0x28, 0x80, 0x08, 0x58, 0xf4, 0x41, 0x51, 0x35, 0xd2, 0xeb, 0x51, 0xc0,
    0x63, 0x4a, 0xd8, 0xa9, 0x2f, 0xcf, 0x3c, 0xbf, 0x2b, 0xb1, 0x2b, 0x30, 0x0d, 0x06, 0x09, 0x2a,
    0x86, 0x48, 0x86, 0xf7, 0x0d, 0x01, 0x01, 0x0b, 0x05, 0x00, 0x03, 0x82, 0x01, 0x01, 0x00, 0x17,
    0xc0, 0x41, 0x2c, 0x3b, 0xd2, 0x59, 0x98, 0x39, 0xec, 0x1e, 0x9a, 0x0e, 0xdc, 0xdf, 0x51, 0x34,
    0x86, 0x7a, 0xd0, 0x98, 0xb3, 0x79, 0x34, 0xbc, 0x9a, 0x82, 0x26, 0x52, 0xfe, 0x3f, 0x3e, 0xff,
    0x52, 0xbb, 0x82, 0x4a, 0xca, 0x23, 0x43, 0x3a, 0x79, 0x47, 0xa8, 0xef, 0xbe, 0x06, 0x10, 0xf3,
    0x73, 0x1a, 0x21, 0xdc, 0x1e, 0xda, 0x68, 0x2d, 0xf8, 0xe0, 0x90, 0x07, 0x9b, 0xfb, 0xca, 0x57,
    0x2d, 0xc8, 0x1c, 0xc1, 0x99, 0x82, 0x30, 0xf6, 0x73, 0xe7, 0xc4, 0x40, 0xbb, 0x1e, 0x57, 0x09,
    0x2f, 0x62, 0xbf, 0x93, 0x96, 0x63, 0x24, 0x54, 0x67, 0xbf, 0x89, 0x15, 0xd5, 0x28, 0xbc, 0xf9,
    0x32, 0x29, 0x10, 0x05, 0x74, 0x92, 0xc7, 0xf7, 0xf4, 0xa1, 0x8a, 0x7a, 0x61, 0xbc, 0x90, 0x68,
    0xb8, 0x19, 0x75, 0x75, 0xbf, 0x4d, 0xf3, 0x4a, 0xfd, 0x29, 0xf1, 0xa0, 0x9a, 0xae, 0x9b, 0xa8,
    0x48, 0xa0, 0x49, 0xe2, 0xa9, 0x41, 0xd0, 0x2b, 0xe6, 0x4b, 0x63, 0x2a, 0x57, 0x82, 0xa7, 0xcc,
    0xed, 0x0e, 0xda, 0x1d, 0x1c, 0xfd, 0x94, 0x38, 0x8e, 0x0e, 0xe5, 0xe7, 0x77, 0xa2, 0x37, 0xb5,
    0x4f, 0x75, 0x13, 0x0c, 0x3b, 0x50, 0xd1, 0xc3, 0xe3, 0x1a, 0x5b, 0xa2, 0x3f, 0x84, 0x46, 0x69,
    0xfa, 0x86, 0x50, 0xee, 0x18, 0x4a, 0x5e, 0x02, 0x94, 0x06, 0xf1, 0x78, 0x20, 0x6c, 0x32, 0xad,
    0xfc, 0x88, 0x67, 0xc0, 0x1e, 0x58, 0xa1, 0xb8, 0x20, 0xff, 0x7c, 0x08, 0xe8, 0x32, 0x45, 0xbc,
    0xfb, 0xaa, 0xda, 0xc0, 0x55, 0xeb, 0xd1, 0x28, 0x23, 0x34, 0x64, 0x2d, 0xad, 0xd3, 0x80, 0x36,
    0x15, 0xc8, 0xb1, 0xe3, 0x41, 0x4a, 0x11, 0xe8, 0x84, 0xd3, 0xdd, 0xc0, 0x8f, 0x77, 0x30, 0x78,
    0xc6, 0x31, 0x34, 0xb3, 0xe0, 0xc2, 0x04, 0x0f, 0xf1, 0x7b, 0xb7, 0x90, 0x0e, 0x50, 0x13
];

#[test]
fn probe_match_debug_clone() {
    let m = ProbeMatch { service: "test", version: Some("1.0".into()), confidence: VersionConfidence::Exact };
    let _ = format!("{m:?}");
    let _ = m.clone();
}

#[test]
fn probe_error_display() {
    let err = ProbeError::AllTimedOut;
    assert_eq!(err.message(), "all probes timed out");
    let err = ProbeError::NoMatch;
    assert_eq!(err.message(), "no matching protocol found");
    let err = ProbeError::Failed { context: "broken".into() };
    assert_eq!(err.message(), "probe failed: broken");
}

#[test]
fn known_service_probe_lookup() {
    assert_eq!(known_probe("postgresql"), Some(ProbeKind::Postgresql));
    assert_eq!(known_probe("mongodb"), Some(ProbeKind::Mongodb));
    assert_eq!(known_probe("https-alt"), Some(ProbeKind::Tls));
    assert_eq!(known_probe("ssh"), None);
    assert_eq!(chain_probes().len(), 6);
    assert_eq!(chain_probes()[0], ProbeKind::Tls);
}

#[test]
fn sanitized_error_drops_internal_lines() {
    assert_eq!(sanitized_error("timeout\nconnect to 10.1.2.3 failed"), ProbeError::Failed { context: "timeout".into() });
}

#[test]
fn chain_timeouts() {
    let per = Duration::from_secs(5);
    assert_eq!(chain_probe_timeout(Duration::from_secs(1), Duration::from_secs(30), per), Some(per));
    assert_eq!(
        chain_probe_timeout(Duration::from_secs(28), Duration::from_secs(30), per),
        Some(Duration::from_secs(2))
    );
    assert_eq!(chain_probe_timeout(Duration::from_millis(29_950), Duration::from_secs(30), per), None);
    assert_eq!(chain_probe_timeout(Duration::from_secs(40), Duration::from_secs(30), per), None);
}

// ---- DNS ----

fn dns_reply(txt: &[u8]) -> Vec<u8> {
    let mut m = build_dns_query();
    m[2] = 0x84;
    m[7] = 1; // one answer
    m.extend_from_slice(&[0xC0, 0x0C, 0x00, 0x10, 0x00, 0x03, 0, 0, 0, 0]);
    let rdlen = (txt.len() + 1) as u16;
    m.extend_from_slice(&rdlen.to_be_bytes());
    m.push(txt.len() as u8);
    m.extend_from_slice(txt);
    m
}

#[test]
fn dns_query_layout() {
    let q = build_dns_query();
    assert_eq!(q.len(), 30);
    assert_eq!(&q[0..2], &[0xAA, 0xAA]);
    assert_eq!(&q[12..20], &[7, b'v', b'e', b'r', b's', b'i', b'o', b'n']);
    assert_eq!(skip_dns_name(&q, 12), Some(26));
}

#[test]
fn dns_names_and_pointers() {
    let m = [3u8, b'a', b'b', b'c', 0, 0xC0, 0x00];
    assert_eq!(skip_dns_name(&m, 0), Some(5));
    assert_eq!(skip_dns_name(&m, 5), Some(7));
    assert_eq!(skip_dns_name(&[5u8, b'a'], 0), None);
    assert_eq!(skip_dns_name(&m, 9), None);
}

#[test]
fn dns_response_text() {
    let r = dns_reply(b"9.18.1-Ubuntu");
    assert_eq!(parse_dns_response(&r), Some("9.18.1-Ubuntu".to_string()));
    let m = dns_probe_result(parse_dns_response(&r)).unwrap();
    assert_eq!(m.service, "dns");
    assert_eq!(m.version.as_deref(), Some("9.18.1-Ubuntu"));
    assert_eq!(m.confidence, VersionConfidence::BannerExact);
    assert_eq!(parse_dns_response(&r[..11]), None);
    assert_eq!(dns_probe_result(None), Err(ProbeError::NoMatch));
    assert_eq!(dns_probe_result(Some("\u{1}".into())), Err(ProbeError::NoMatch));
}

#[test]
fn dns_invalid_utf8_is_replaced() {
    let r = dns_reply(&[b'v', 0xFF, b'1']);
    assert_eq!(parse_dns_response(&r), Some("v\u{FFFD}1".to_string()));
}

// ---- MongoDB ----

#[test]
fn bson_int_and_documents() {
    assert_eq!(bson_int32(1), vec![1, 0, 0, 0]);
    assert_eq!(bson_int32(-1), vec![0xff, 0xff, 0xff, 0xff]);
    assert_eq!(u32_from_le_bytes(&bson_int32(0x01020304)), 0x01020304);
    let doc = bson_build_document(&[("isMaster", bson_int32(1))]);
    assert_eq!(doc.len(), 19);
    assert_eq!(u32_from_le_bytes(&doc), 19);
    assert_eq!(&build_mongo_query()[39..], &doc[..]);
}

fn string_doc(name: &str, value: &str) -> Vec<u8> {
    let mut body = vec![0x02];
    body.extend_from_slice(name.as_bytes());
    body.push(0);
    body.extend_from_slice(&((value.len() + 1) as u32).to_le_bytes());
    body.extend_from_slice(value.as_bytes());
    body.push(0);
    let mut doc = ((body.len() + 5) as u32).to_le_bytes().to_vec();
    doc.extend_from_slice(&body);
    doc.push(0);
    doc
}

#[test]
fn bson_strings() {
    let doc = string_doc("version", "6.0.5");
    assert_eq!(bson_extract_string(&doc, "version"), Some("6.0.5".to_string()));
    assert_eq!(bson_extract_string(&doc, "other"), None);
    let mut two = bson_build_document(&[("ok", bson_int32(1))]);
    two.truncate(two.len() - 1);
    let s = string_doc("version", "7.0");
    two.extend_from_slice(&s[4..]);
    let n = two.len() as u32;
    two[..4].copy_from_slice(&n.to_le_bytes());
    assert_eq!(bson_extract_string(&two, "version"), Some("7.0".to_string()));
}

#[test]
fn mongo_reply() {
    let mut reply = vec![0u8; 36];
    reply.extend_from_slice(&string_doc("version", "5.0.1"));
    let n = reply.len();
    let m = mongo_reply_result(&reply, n).unwrap();
    assert_eq!(m.service, "mongodb");
    assert_eq!(m.version.as_deref(), Some("5.0.1"));
    assert_eq!(mongo_reply_result(&reply, 20), Err(ProbeError::NoMatch));
}

// ---- PostgreSQL ----

#[test]
fn pg_startup_and_messages() {
    let s = build_pg_startup();
    assert_eq!(u32::from_be_bytes([s[0], s[1], s[2], s[3]]) as usize, s.len());
    assert_eq!(pg_payload_len(&[b'E', 0, 0, 0, 20]), 16);
    assert_eq!(pg_payload_len(&[b'E', 0, 0, 0, 2]), 0);
    assert_eq!(pg_payload_len(&[b'E', 0, 1, 0, 0]), 4096);
    let payload = b"SFATAL\0Mpassword authentication failed\0\0";
    assert_eq!(extract_pg_error(payload), Some("password authentication failed".to_string()));
    assert_eq!(extract_pg_error(b"SFATAL\0\0"), None);
    match pg_message_action(b'E', payload) {
        PgAction::Finish(Ok(m)) => {
            assert_eq!(m.service, "postgresql");
            assert_eq!(m.version.as_deref(), Some("password authentication failed"));
        },
        other => panic!("unexpected {other:?}"),
    }
    assert!(matches!(pg_message_action(b'R', payload), PgAction::Terminate));
    assert!(matches!(pg_message_action(b'N', b"SNOTICE\0\0"), PgAction::Continue));
    assert!(matches!(pg_message_action(b'E', b"SNOTICE\0\0"), PgAction::Finish(Err(ProbeError::NoMatch))));
    assert!(matches!(pg_message_action(b'Z', payload), PgAction::Finish(Err(ProbeError::NoMatch))));
}

// ---- SMB ----

#[test]
fn smb_dialects() {
    let q = build_smb2_negotiate();
    assert_eq!(&q[0..4], &[0xfe, b'S', b'M', b'B']);
    let mut resp = vec![0u8; 70];
    resp[4..8].copy_from_slice(&[0xFE, 0x53, 0x4D, 0x42]);
    resp[68] = 0x11;
    resp[69] = 0x03;
    assert_eq!(smb_probe_result(&resp).unwrap().version.as_deref(), Some("SMB 3.1.1"));
    resp[68] = 0x10;
    resp[69] = 0x02;
    assert_eq!(smb_probe_result(&resp).unwrap().version.as_deref(), Some("SMB 2.1"));
    resp[68] = 0x99;
    assert_eq!(smb_probe_result(&resp), Err(ProbeError::NoMatch));
    assert_eq!(smb_probe_result(&resp[..69]), Err(ProbeError::NoMatch));
}

// ---- SIP ----

#[test]
fn sip_request_and_reply() {
    let req = sip_options_request(&IpAddress::V4([10, 0, 0, 5]), 42);
    assert!(req.starts_with("OPTIONS sip:ping@10.0.0.5 SIP/2.0\r\n"));
    assert!(req.contains("Call-ID: aplomado-42\r\n"));
    assert!(req.ends_with("Content-Length: 0\r\n\r\n"));
    let reply = b"SIP/2.0 200 OK\r\nserver:  Asterisk PBX 18.2 \r\n\r\n";
    assert_eq!(sip_probe_result(reply).unwrap().version.as_deref(), Some("Asterisk PBX 18.2"));
    assert_eq!(sip_probe_result(b"SIP/2.0 200 OK\r\n\r\n"), Err(ProbeError::NoMatch));
    assert_eq!(sip_probe_result(b""), Err(ProbeError::NoMatch));
}

// ---- TLS ----

#[test]
fn tls_names() {
    let m = tls_names_result(Some("example.org".into()), &vec!["a.example.org".into(), "b.example.org".into()]).unwrap();
    assert_eq!(m.version.as_deref(), Some("example.org; a.example.org, b.example.org"));
    let m = tls_names_result(None, &vec!["only.example".into()]).unwrap();
    assert_eq!(m.version.as_deref(), Some("only.example"));
    assert_eq!(tls_names_result(None, &vec![]), Err(ProbeError::NoMatch));
}

#[test]
fn tls_certificates() {
    let m = tls_probe_result(&BENNO_DER).unwrap();
    assert_eq!(m.service, "tls");
    assert_eq!(m.version.as_deref(), Some("benno"));
    let m = tls_probe_result(&LISTS_DER).unwrap();
    assert_eq!(m.version.as_deref(), Some("lists.for-our.info; lists.for-our.info"));
    assert_eq!(
        tls_probe_result(&[0x30, 0x03, 0x01, 0x02, 0x03]),
        Err(ProbeError::Failed { context: "cert parse failed".into() })
    );
}

#[test]
fn bson_string_field_reads_back() {
    for (name, value) in [("version", "7.0.4"), ("v", ""), ("gitVersion", "a\u{0}b")] {
        let doc = string_doc(name, value);
        assert_eq!(aplomado_core::probes::bson_extract_string(&doc, name), Some(value.to_string()));
    }
    assert_eq!(aplomado_core::probes::bson_extract_string(&string_doc("version", "1"), "other"), None);
}

#[test]
fn version_reply_reads_back() {
    for txt in ["9.18.1", "x", "unbound 1.17.0"] {
        let mut m = vec![0xAA, 0xAA, 0x81, 0x80, 0x00, 0x01, 0x00, 0x01, 0x00, 0x00, 0x00, 0x00];
        m.extend_from_slice(&build_dns_query()[12..30]);
        m.extend_from_slice(&[0xC0, 0x0C, 0x00, 0x10, 0x00, 0x03, 0x00, 0x00, 0x00, 0x00, 0x00]);
        m.push((txt.len() + 1) as u8);
        m.push(txt.len() as u8);
        m.extend_from_slice(txt.as_bytes());
        assert_eq!(aplomado_core::probes::parse_dns_response(&m), Some(txt.to_string()));
    }
}
