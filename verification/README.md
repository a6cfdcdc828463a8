# tap

The traffic-classification core of a network tap, verified with Verus.

- `rtp_tagger`, `dtls_tagger`: find RTP media streams and DTLS data
  channels in the recent datagrams of a UDP flow.
- `l7_tagger`: tag sets, the tags of TCP sessions, and the UDP tagging
  pass that combines STUN, RTP and DTLS into WebRTC.
- `udp_table`: UDP conversations, their bounded payload samples and
  recent-datagram rings, staleness, expiry, orientation of WebRTC flows,
  and the table of conversations keyed by session.
- `webrtc_conversation`, `webrtc_table`, `webrtc_report`: WebRTC
  conversations, merging repeated observations, and the report.
- `bluetooth_tools`, `capture`: Bluetooth adapter addresses and the
  decisions of the Bluetooth capture loop.

`app/` holds what Verus does not check: locks, the clock, JSON, D-Bus and
report submission.
