//! The words of the configuration language, told apart.

use vstd::prelude::*;
use vstd::string::*;

verus! {

/// Lengths and characters that tell the words of a location apart.
pub proof fn lemma_location_words()
    ensures
        "return"@.len() == 6,
        "return"@[0] == 'r',
        "proxy_pass"@.len() == 10,
        "proxy_pass"@[1] == 'r',
        "root"@.len() == 4,
        "root"@[0] == 'r',
        "alias"@.len() == 5,
        "alias"@[2] == 'i',
        "metrics"@.len() == 7,
        "metrics"@[0] == 'm',
        "proxy_set_header"@.len() == 16,
        "proxy_set_header"@[8] == 't',
        "add_header"@.len() == 10,
        "add_header"@[1] == 'd',
        "proxy_cache"@.len() == 11,
        "proxy_cache_key"@.len() == 15,
        "proxy_cache_key"@[6] == 'c',
        "auth_basic"@.len() == 10,
        "auth_basic"@[1] == 'u',
        "auth_basic_user_file"@.len() == 20,
        "auth_basic_user_file"@[0] == 'a',
        "allow"@.len() == 5,
        "allow"@[2] == 'l',
        "deny"@.len() == 4,
        "deny"@[0] == 'd',
        "auth_request"@.len() == 12,
        "mirror"@.len() == 6,
        "mirror"@[0] == 'm',
        "proxy_ssl_certificate"@.len() == 21,
        "proxy_ssl_certificate"@[13] == 't',
        "proxy_ssl_certificate_key"@.len() == 25,
        "expires"@.len() == 7,
        "expires"@[0] == 'e',
        "proxy_connect_timeout"@.len() == 21,
        "proxy_connect_timeout"@[13] == '_',
        "proxy_read_timeout"@.len() == 18,
        "proxy_read_timeout"@[6] == 'r',
        "gzip"@.len() == 4,
        "gzip"@[0] == 'g',
        "autoindex"@.len() == 9,
        "autoindex"@[0] == 'a',
        "proxy_ssl_verify"@.len() == 16,
        "proxy_ssl_verify"@[8] == 'l',
        "proxy_cache_valid"@.len() == 17,
        "proxy_cache_valid"@[8] == 'c',
        "limit_req"@.len() == 9,
        "limit_req"@[0] == 'l',
        "limit_conn"@.len() == 10,
        "limit_conn"@[1] == 'i',
        "try_files"@.len() == 9,
        "try_files"@[0] == 't',
        "proxy_cache_bypass"@.len() == 18,
        "proxy_cache_bypass"@[6] == 'c',
        "proxy_no_cache"@.len() == 14,
        "proxy_no_cache"@[6] == 'n',
        "proxy_cache_lock"@.len() == 16,
        "proxy_cache_lock"@[8] == 'c',
        "proxy_cache_use_stale"@.len() == 21,
        "proxy_cache_use_stale"@[13] == 's',
        "proxy_cache_revalidate"@.len() == 22,
        "proxy_cache_methods"@.len() == 19,
        "proxy_cache_methods"@[6] == 'c',
        "proxy_cache_min_uses"@.len() == 20,
        "proxy_cache_min_uses"@[0] == 'p',
        "limit_req_status"@.len() == 16,
        "limit_req_status"@[8] == 'q',
        "limit_conn_status"@.len() == 17,
        "limit_conn_status"@[8] == 'n',
        "include"@.len() == 7,
        "include"@[0] == 'i',
        "index"@.len() == 5,
        "index"@[2] == 'd',
        "proxy_buffering"@.len() == 15,
        "proxy_buffering"@[6] == 'b',
        "proxy_send_timeout"@.len() == 18,
        "proxy_send_timeout"@[6] == 's',
        "proxy_next_upstream"@.len() == 19,
        "proxy_next_upstream"@[6] == 'n',
        "proxy_hide_header"@.len() == 17,
        "proxy_hide_header"@[8] == 'd',
        "proxy_pass_header"@.len() == 17,
        "proxy_pass_header"@[8] == 's',
        "proxy_redirect"@.len() == 14,
        "proxy_redirect"@[6] == 'r',
        "proxy_ssl_trusted_certificate"@.len() == 29,
        "proxy_ssl_server_name"@.len() == 21,
        "proxy_ssl_server_name"@[13] == 'v',
        "proxy_ssl_session_reuse"@.len() == 23,
        "proxy_ssl_protocols"@.len() == 19,
        "proxy_ssl_protocols"@[6] == 's',
        "proxy_ssl_ciphers"@.len() == 17,
        "proxy_ssl_ciphers"@[8] == 'l',
        "on"@.len() == 2,
        "off"@.len() == 3,
{
    reveal_strlit("return");
    reveal_strlit("proxy_pass");
    reveal_strlit("root");
    reveal_strlit("alias");
    reveal_strlit("metrics");
    reveal_strlit("proxy_set_header");
    reveal_strlit("add_header");
    reveal_strlit("proxy_cache");
    reveal_strlit("proxy_cache_key");
    reveal_strlit("auth_basic");
    reveal_strlit("auth_basic_user_file");
    reveal_strlit("allow");
    reveal_strlit("deny");
    reveal_strlit("auth_request");
    reveal_strlit("mirror");
    reveal_strlit("proxy_ssl_certificate");
    reveal_strlit("proxy_ssl_certificate_key");
    reveal_strlit("expires");
    reveal_strlit("proxy_connect_timeout");
    reveal_strlit("proxy_read_timeout");
    reveal_strlit("gzip");
    reveal_strlit("autoindex");
    reveal_strlit("proxy_ssl_verify");
    reveal_strlit("proxy_cache_valid");
    reveal_strlit("limit_req");
    reveal_strlit("limit_conn");
    reveal_strlit("try_files");
    reveal_strlit("proxy_cache_bypass");
    reveal_strlit("proxy_no_cache");
    reveal_strlit("proxy_cache_lock");
    reveal_strlit("proxy_cache_use_stale");
    reveal_strlit("proxy_cache_revalidate");
    reveal_strlit("proxy_cache_methods");
    reveal_strlit("proxy_cache_min_uses");
    reveal_strlit("limit_req_status");
    reveal_strlit("limit_conn_status");
    reveal_strlit("include");
    reveal_strlit("index");
    reveal_strlit("proxy_buffering");
    reveal_strlit("proxy_send_timeout");
    reveal_strlit("proxy_next_upstream");
    reveal_strlit("proxy_hide_header");
    reveal_strlit("proxy_pass_header");
    reveal_strlit("proxy_redirect");
    reveal_strlit("proxy_ssl_trusted_certificate");
    reveal_strlit("proxy_ssl_server_name");
    reveal_strlit("proxy_ssl_session_reuse");
    reveal_strlit("proxy_ssl_protocols");
    reveal_strlit("proxy_ssl_ciphers");
    reveal_strlit("on");
    reveal_strlit("off");
}

/// Lengths and characters that tell the words of a server apart.
pub proof fn lemma_server_words()
    ensures
        "listen"@.len() == 6,
        "listen"@[0] == 'l',
        "server_name"@.len() == 11,
        "server_name"@[4] == 'e',
        "ssl_certificate"@.len() == 15,
        "ssl_certificate"@[5] == 'e',
        "ssl_certificate_key"@.len() == 19,
        "ssl_certificate_key"@[14] == 'e',
        "ssl_protocols"@.len() == 13,
        "gzip"@.len() == 4,
        "gzip"@[0] == 'g',
        "gzip_types"@.len() == 10,
        "gzip_types"@[1] == 'z',
        "gzip_min_length"@.len() == 15,
        "gzip_min_length"@[5] == 'm',
        "client_max_body_size"@.len() == 20,
        "add_header"@.len() == 10,
        "add_header"@[1] == 'd',
        "location"@.len() == 8,
        "return"@.len() == 6,
        "return"@[0] == 'r',
        "ssl_ciphers"@.len() == 11,
        "ssl_ciphers"@[4] == 'c',
        "ssl_prefer_server_ciphers"@.len() == 25,
        "ssl_session_cache"@.len() == 17,
        "ssl_session_timeout"@.len() == 19,
        "ssl_session_timeout"@[14] == 'm',
        "ssl_session_tickets"@.len() == 19,
        "ssl_session_tickets"@[14] == 'c',
        "ssl_dhparam"@.len() == 11,
        "ssl_dhparam"@[4] == 'd',
        "ssl_ecdh_curve"@.len() == 14,
        "ssl_stapling"@.len() == 12,
        "ssl_stapling"@[5] == 't',
        "gzip_disable"@.len() == 12,
        "gzip_disable"@[5] == 'd',
        "gzip_comp_level"@.len() == 15,
        "gzip_comp_level"@[5] == 'c',
        "gzip_proxied"@.len() == 12,
        "gzip_proxied"@[5] == 'p',
        "gzip_vary"@.len() == 9,
        "gzip_vary"@[0] == 'g',
        "gzip_buffers"@.len() == 12,
        "gzip_buffers"@[5] == 'b',
        "root"@.len() == 4,
        "root"@[0] == 'r',
        "include"@.len() == 7,
        "access_log"@.len() == 10,
        "access_log"@[1] == 'c',
        "error_log"@.len() == 9,
        "error_log"@[0] == 'e',
        "index"@.len() == 5,
        "error_page"@.len() == 10,
        "error_page"@[1] == 'r',
        "on"@.len() == 2,
        "off"@.len() == 3,
{
    reveal_strlit("listen");
    reveal_strlit("server_name");
    reveal_strlit("ssl_certificate");
    reveal_strlit("ssl_certificate_key");
    reveal_strlit("ssl_protocols");
    reveal_strlit("gzip");
    reveal_strlit("gzip_types");
    reveal_strlit("gzip_min_length");
    reveal_strlit("client_max_body_size");
    reveal_strlit("add_header");
    reveal_strlit("location");
    reveal_strlit("return");
    reveal_strlit("ssl_ciphers");
    reveal_strlit("ssl_prefer_server_ciphers");
    reveal_strlit("ssl_session_cache");
    reveal_strlit("ssl_session_timeout");
    reveal_strlit("ssl_session_tickets");
    reveal_strlit("ssl_dhparam");
    reveal_strlit("ssl_ecdh_curve");
    reveal_strlit("ssl_stapling");
    reveal_strlit("gzip_disable");
    reveal_strlit("gzip_comp_level");
    reveal_strlit("gzip_proxied");
    reveal_strlit("gzip_vary");
    reveal_strlit("gzip_buffers");
    reveal_strlit("root");
    reveal_strlit("include");
    reveal_strlit("access_log");
    reveal_strlit("error_log");
    reveal_strlit("index");
    reveal_strlit("error_page");
    reveal_strlit("on");
    reveal_strlit("off");
}

/// Lengths and characters that tell the words of `http` apart.
pub proof fn lemma_http_words()
    ensures
        "access_log"@.len() == 10,
        "access_log"@[0] == 'a',
        "upstream"@.len() == 8,
        "upstream"@[0] == 'u',
        "server"@.len() == 6,
        "proxy_cache_path"@.len() == 16,
        "limit_req_zone"@.len() == 14,
        "limit_conn_zone"@.len() == 15,
        "limit_conn_zone"@[5] == '_',
        "map"@.len() == 3,
        "map"@[0] == 'm',
        "gzip"@.len() == 4,
        "gzip_types"@.len() == 10,
        "gzip_types"@[0] == 'g',
        "gzip_min_length"@.len() == 15,
        "gzip_min_length"@[5] == 'm',
        "client_max_body_size"@.len() == 20,
        "client_max_body_size"@[0] == 'c',
        "include"@.len() == 7,
        "error_log"@.len() == 9,
        "error_log"@[0] == 'e',
        "sendfile"@.len() == 8,
        "sendfile"@[0] == 's',
        "tcp_nopush"@.len() == 10,
        "tcp_nopush"@[0] == 't',
        "tcp_nodelay"@.len() == 11,
        "keepalive_timeout"@.len() == 17,
        "keepalive_timeout"@[0] == 'k',
        "types_hash_max_size"@.len() == 19,
        "types_hash_bucket_size"@.len() == 22,
        "default_type"@.len() == 12,
        "default_type"@[5] == 'l',
        "server_tokens"@.len() == 13,
        "log_format"@.len() == 10,
        "log_format"@[0] == 'l',
        "types"@.len() == 5,
        "map_hash_bucket_size"@.len() == 20,
        "map_hash_bucket_size"@[0] == 'm',
        "map_hash_max_size"@.len() == 17,
        "map_hash_max_size"@[0] == 'm',
        "gzip_disable"@.len() == 12,
        "gzip_disable"@[5] == 'd',
        "gzip_comp_level"@.len() == 15,
        "gzip_comp_level"@[5] == 'c',
        "gzip_proxied"@.len() == 12,
        "gzip_proxied"@[5] == 'p',
        "gzip_vary"@.len() == 9,
        "gzip_vary"@[0] == 'g',
        "gzip_buffers"@.len() == 12,
        "gzip_buffers"@[5] == 'b',
        "on"@.len() == 2,
        "off"@.len() == 3,
        "off"@[0] == 'o',
{
    reveal_strlit("access_log");
    reveal_strlit("upstream");
    reveal_strlit("server");
    reveal_strlit("proxy_cache_path");
    reveal_strlit("limit_req_zone");
    reveal_strlit("limit_conn_zone");
    reveal_strlit("map");
    reveal_strlit("gzip");
    reveal_strlit("gzip_types");
    reveal_strlit("gzip_min_length");
    reveal_strlit("client_max_body_size");
    reveal_strlit("include");
    reveal_strlit("error_log");
    reveal_strlit("sendfile");
    reveal_strlit("tcp_nopush");
    reveal_strlit("tcp_nodelay");
    reveal_strlit("keepalive_timeout");
    reveal_strlit("types_hash_max_size");
    reveal_strlit("types_hash_bucket_size");
    reveal_strlit("default_type");
    reveal_strlit("server_tokens");
    reveal_strlit("log_format");
    reveal_strlit("types");
    reveal_strlit("map_hash_bucket_size");
    reveal_strlit("map_hash_max_size");
    reveal_strlit("gzip_disable");
    reveal_strlit("gzip_comp_level");
    reveal_strlit("gzip_proxied");
    reveal_strlit("gzip_vary");
    reveal_strlit("gzip_buffers");
    reveal_strlit("on");
    reveal_strlit("off");
}

/// Lengths and characters that tell the words of `stream` apart.
pub proof fn lemma_stream_words()
    ensures
        "listen"@.len() == 6,
        "listen"@[0] == 'l',
        "proxy_pass"@.len() == 10,
        "proxy_pass"@[0] == 'p',
        "include"@.len() == 7,
        "proxy_timeout"@.len() == 13,
        "proxy_connect_timeout"@.len() == 21,
        "tcp_nodelay"@.len() == 11,
        "upstream"@.len() == 8,
        "upstream"@[0] == 'u',
        "server"@.len() == 6,
        "server"@[0] == 's',
        "access_log"@.len() == 10,
        "access_log"@[0] == 'a',
        "error_log"@.len() == 9,
        "log_format"@.len() == 10,
        "log_format"@[0] == 'l',
        "resolver"@.len() == 8,
        "resolver"@[0] == 'r',
{
    reveal_strlit("listen");
    reveal_strlit("proxy_pass");
    reveal_strlit("include");
    reveal_strlit("proxy_timeout");
    reveal_strlit("proxy_connect_timeout");
    reveal_strlit("tcp_nodelay");
    reveal_strlit("upstream");
    reveal_strlit("server");
    reveal_strlit("access_log");
    reveal_strlit("error_log");
    reveal_strlit("log_format");
    reveal_strlit("resolver");
}

/// Lengths and characters that tell the words of the main context apart.
pub proof fn lemma_main_words()
    ensures
        "worker_processes"@.len() == 16,
        "pid"@.len() == 3,
        "error_log"@.len() == 9,
        "user"@.len() == 4,
        "user"@[0] == 'u',
        "worker_rlimit_nofile"@.len() == 20,
        "http"@.len() == 4,
        "http"@[0] == 'h',
        "stream"@.len() == 6,
        "stream"@[0] == 's',
        "events"@.len() == 6,
        "events"@[0] == 'e',
        "include"@.len() == 7,
        "load_module"@.len() == 11,
        "daemon"@.len() == 6,
        "daemon"@[0] == 'd',
        "master_process"@.len() == 14,
        "worker_shutdown_timeout"@.len() == 23,
{
    reveal_strlit("worker_processes");
    reveal_strlit("pid");
    reveal_strlit("error_log");
    reveal_strlit("user");
    reveal_strlit("worker_rlimit_nofile");
    reveal_strlit("http");
    reveal_strlit("stream");
    reveal_strlit("events");
    reveal_strlit("include");
    reveal_strlit("load_module");
    reveal_strlit("daemon");
    reveal_strlit("master_process");
    reveal_strlit("worker_shutdown_timeout");
}

/// Lengths and characters that tell the words of an upstream apart.
pub proof fn lemma_upstream_words()
    ensures
        "server"@.len() == 6,
        "server"@[0] == 's',
        "least_conn"@.len() == 10,
        "ip_hash"@.len() == 7,
        "hash"@.len() == 4,
        "hash"@[0] == 'h',
        "keepalive"@.len() == 9,
        "zone"@.len() == 4,
        "zone"@[0] == 'z',
        "health_check"@.len() == 12,
        "backup"@.len() == 6,
        "backup"@[0] == 'b',
        "down"@.len() == 4,
        "down"@[0] == 'd',
{
    reveal_strlit("server");
    reveal_strlit("least_conn");
    reveal_strlit("ip_hash");
    reveal_strlit("hash");
    reveal_strlit("keepalive");
    reveal_strlit("zone");
    reveal_strlit("health_check");
    reveal_strlit("backup");
    reveal_strlit("down");
}

} // verus!
